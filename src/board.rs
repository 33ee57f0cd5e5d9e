//! A player's board: the grid, the fleet on it and the shots taken at it.
use vstd::prelude::*;
use crate::constants::{GameplayError, GuessError, GuessResult, PlayerState};
use crate::fleet::{
    coords_union, fleet_guess, hits_union, same_name, select, unplaced, Fleet, SHIP_COUNT,
};
use crate::mask::{
    bit_on, cell_index, contains, in_grid, lemma_all_cells, lemma_and_bits, lemma_bit_zero,
    lemma_count_add, lemma_not_bits, lemma_or_bits, lemma_single_bits, count_cells, count_below,
    on_grid, single, subset, ALL_CELLS, CELL_COUNT, GRID_SIZE,
};
use crate::ship::{coord_bit, Ship};
use crate::chance::{random_below, random_bool};

verus! {

/// The cells a ship of `length` would take from `start` on, rightwards when
/// `horizontal`, else downwards.
pub open spec fn placement_cells(start: (usize, usize), length: usize, horizontal: bool) -> Seq<
    (usize, usize),
> {
    Seq::new(
        length as nat,
        |i: int|
            if horizontal {
                (start.0, (start.1 + i) as usize)
            } else {
                ((start.0 + i) as usize, start.1)
            },
    )
}

/// Whether every cell lies on the grid and outside `invalid`.
pub open spec fn fits(cells: Seq<(usize, usize)>, invalid: u128) -> bool {
    forall|j: int|
        0 <= j < cells.len() ==> in_grid(#[trigger] cells[j].0 as int, cells[j].1 as int)
            && !bit_on(invalid, coord_bit(cells[j]))
}

/// Mask of the cells of a sequence of on-grid coordinates.
pub open spec fn cells_mask(cells: Seq<(usize, usize)>) -> u128
    decreases cells.len(),
{
    if cells.len() == 0 {
        0u128
    } else {
        cells_mask(cells.drop_last()) | (1u128 << (coord_bit(cells.last()) as u128))
    }
}

/// The index of the first ship called `name`, if any.
pub open spec fn first_named(ships: Seq<Ship>, name: &str, i: int) -> bool {
    &&& 0 <= i < ships.len()
    &&& same_name(ships[i].spec_name(), name)
    &&& forall|j: int| 0 <= j < i ==> !same_name(#[trigger] ships[j].spec_name(), name)
}

/// How a shot at the on-grid cell `t` changes a board and what it reports: a
/// repeated shot is refused and changes nothing; a new one is recorded and taken
/// by the fleet.
pub open spec fn shot_at(
    before: Board,
    after: Board,
    t: (usize, usize),
    r: Result<GuessResult, GuessError>,
) -> bool {
    &&& bit_on(before.spec_guessed(), coord_bit(t)) ==> r == Err::<GuessResult, GuessError>(
        GuessError::AlreadyGuessed,
    ) && after == before
    &&& !bit_on(before.spec_guessed(), coord_bit(t)) ==> after.spec_guessed()
        == before.spec_guessed() | (1u128 << (coord_bit(t) as u128)) && fleet_guess(
        before.spec_ships(),
        after.spec_ships(),
        t,
        r,
    )
}

/// The board of one player.
pub struct Board {
    gridsize: usize,
    fleet: Fleet,
    coordinates: u128,
    guessed: u128,
}

impl Board {
    pub closed spec fn spec_ships(&self) -> Seq<Ship> {
        self.fleet.spec_ships()
    }

    /// The cells shot at so far.
    pub closed spec fn spec_guessed(&self) -> u128 {
        self.guessed
    }

    pub closed spec fn wf(&self) -> bool {
        &&& self.fleet.wf()
        &&& self.gridsize == GRID_SIZE
        &&& self.coordinates == ALL_CELLS
        &&& on_grid(self.guessed)
    }

    /// An empty board with the standard fleet, nothing placed or shot.
    pub fn new() -> (b: Board)
        ensures
            b.wf(),
            b.spec_guessed() == 0,
            b.spec_ships().len() == SHIP_COUNT,
            unplaced(b.spec_ships()) == b.spec_ships(),
            forall|i: int|
                0 <= i < SHIP_COUNT ==> (#[trigger] b.spec_ships()[i]).spec_coords() == 0
                    && b.spec_ships()[i].spec_hits() == 0 && !b.spec_ships()[i].spec_sunk(),
    {
        let fleet = Fleet::new();
        proof {
            assert forall|i: int| #[trigger] bit_on(0u128, i) implies 0 <= i < 100 by {
                lemma_bit_zero(i as u128);
            }
            crate::fleet::lemma_unplaced_all(fleet.spec_ships());
        }
        Board { gridsize: GRID_SIZE, fleet, coordinates: ALL_CELLS, guessed: 0 }
    }

    /// Side of the grid.
    pub fn grid_size(&self) -> (n: usize)
        requires
            self.wf(),
        ensures
            n == GRID_SIZE,
    {
        self.gridsize
    }

    /// The cells shot at so far.
    pub fn guessed(&self) -> (m: u128)
        ensures
            m == self.spec_guessed(),
    {
        self.guessed
    }

    /// The cells not shot at yet.
    pub fn unguessed(&self) -> (m: u128)
        requires
            self.wf(),
        ensures
            forall|i: int|
                #[trigger] bit_on(m, i) <==> 0 <= i < CELL_COUNT && !bit_on(self.spec_guessed(), i),
            on_grid(m),
    {
        proof {
            lemma_all_cells();
            lemma_and_bits(ALL_CELLS, !self.guessed);
            lemma_not_bits(self.guessed);
        }
        self.coordinates & !self.guessed
    }

    /// Hit cells of the ships selected by sunk status.
    pub fn hit_coords(&self, unsunk: bool, sunk: bool) -> (m: u128)
        ensures
            m == hits_union(select(self.spec_ships(), unsunk, sunk)),
    {
        self.fleet.hit_coords(unsunk, sunk)
    }

    /// The cells shot at that hit no ship.
    pub fn miss_coords(&self) -> (m: u128)
        ensures
            forall|i: int|
                #[trigger] bit_on(m, i) <==> bit_on(self.spec_guessed(), i) && !bit_on(
                    hits_union(select(self.spec_ships(), true, true)),
                    i,
                ),
    {
        let hits = self.hit_coords(true, true);
        proof {
            lemma_and_bits(self.guessed, !hits);
            lemma_not_bits(hits);
        }
        self.guessed & !hits
    }

    /// Cells of every ship.
    pub(crate) fn fleet_coords(&self) -> (m: u128)
        ensures
            m == coords_union(select(self.spec_ships(), true, true)),
    {
        self.fleet.ship_coords(true, true)
    }

    /// Every ship, in fleet order.
    pub(crate) fn all_ships(&self) -> (r: Vec<Ship>)
        ensures
            r@ == self.spec_ships(),
    {
        self.fleet.all_ships()
    }

    /// Cells of the ships selected by sunk status.
    fn ship_coords(&self, unsunk: bool, sunk: bool) -> (m: u128)
        ensures
            m == coords_union(select(self.spec_ships(), unsunk, sunk)),
    {
        self.fleet.ship_coords(unsunk, sunk)
    }

    /// The cells a ship of `length` would take from `start` on.
    pub fn calc_placement(&self, start: (usize, usize), length: usize, horizontal: bool) -> (r: Vec<
        (usize, usize),
    >)
        requires
            start.0 + length <= usize::MAX,
            start.1 + length <= usize::MAX,
        ensures
            r@ == placement_cells(start, length, horizontal),
    {
        let mut r: Vec<(usize, usize)> = Vec::new();
        let mut i: usize = 0;
        while i < length
            invariant
                i <= length,
                start.0 + length <= usize::MAX,
                start.1 + length <= usize::MAX,
                r@ == placement_cells(start, length, horizontal).take(i as int),
            decreases length - i,
        {
            if horizontal {
                r.push((start.0, start.1 + i));
            } else {
                r.push((start.0 + i, start.1));
            }
            assert(r@ =~= placement_cells(start, length, horizontal).take(i + 1));
            i = i + 1;
        }
        assert(r@ =~= placement_cells(start, length, horizontal));
        r
    }

    /// Whether `coords` lie on the grid and outside `invalid_coords`.
    pub fn valid_placement(&self, coords: &Vec<(usize, usize)>, invalid_coords: u128) -> (b: bool)
        requires
            self.wf(),
        ensures
            b == fits(coords@, invalid_coords),
    {
        let mut j: usize = 0;
        while j < coords.len()
            invariant
                j <= coords@.len(),
                forall|k: int|
                    0 <= k < j ==> in_grid(#[trigger] coords@[k].0 as int, coords@[k].1 as int)
                        && !bit_on(invalid_coords, coord_bit(coords@[k])),
            decreases coords@.len() - j,
        {
            let (r, c) = coords[j];
            if r >= GRID_SIZE || c >= GRID_SIZE {
                return false;
            }
            if contains(invalid_coords, r * GRID_SIZE + c) {
                return false;
            }
            j = j + 1;
        }
        true
    }

    /// Mask of cells that fit the grid, with its number of cells when they are distinct.
    fn mask_of_cells(cells: &Vec<(usize, usize)>) -> (m: u128)
        requires
            forall|j: int|
                0 <= j < cells@.len() ==> in_grid(#[trigger] cells@[j].0 as int, cells@[j].1 as int),
        ensures
            m == cells_mask(cells@),
            on_grid(m),
            (forall|a: int, b: int|
                0 <= a < b < cells@.len() ==> coord_bit(#[trigger] cells@[a]) != coord_bit(
                    #[trigger] cells@[b],
                )) ==> count_cells(m) == cells@.len(),
    {
        let mut m: u128 = 0;
        let mut j: usize = 0;
        proof {
            assert forall|i: int| #[trigger] bit_on(m, i) == false by {
                if 0 <= i < 128 {
                    lemma_bit_zero(i as u128);
                }
            }
            crate::mask::lemma_count_zero(128);
        }
        while j < cells.len()
            invariant
                j <= cells@.len(),
                forall|k: int|
                    0 <= k < cells@.len() ==> in_grid(#[trigger] cells@[k].0 as int, cells@[k].1 as int),
                m == cells_mask(cells@.take(j as int)),
                forall|i: int|
                    #[trigger] bit_on(m, i) ==> exists|k: int| 0 <= k < j && coord_bit(cells@[k]) == i,
                (forall|a: int, b: int|
                    0 <= a < b < cells@.len() ==> coord_bit(#[trigger] cells@[a]) != coord_bit(
                        #[trigger] cells@[b],
                    )) ==> count_cells(m) == j,
            decreases cells@.len() - j,
        {
            let (r, c) = cells[j];
            assert(in_grid(cells@[j as int].0 as int, cells@[j as int].1 as int));
            let k = r * GRID_SIZE + c;
            let b = single(k);
            proof {
                assert(cells@.take(j + 1).drop_last() =~= cells@.take(j as int));
                lemma_or_bits(m, b);
                if forall|a: int, b: int|
                    0 <= a < b < cells@.len() ==> coord_bit(#[trigger] cells@[a]) != coord_bit(
                        #[trigger] cells@[b],
                    ) {
                    if bit_on(m, k as int) {
                        let q = choose|q: int| 0 <= q < j && coord_bit(cells@[q]) == k;
                        assert(coord_bit(cells@[q]) != coord_bit(cells@[j as int]));
                    }
                    lemma_count_add(m, k as u128, 128);
                }
            }
            m = m | b;
            j = j + 1;
        }
        proof {
            assert(cells@.take(j as int) =~= cells@);
            assert forall|i: int| #[trigger] bit_on(m, i) implies 0 <= i < CELL_COUNT as int by {
                let q = choose|q: int| 0 <= q < j && coord_bit(cells@[q]) == i;
                assert(in_grid(cells@[q].0 as int, cells@[q].1 as int));
            }
        }
        m
    }
}

/// Whether `after` is `before` with ship `i` placed on the cells from `start`.
pub open spec fn placed_at(
    before: Seq<Ship>,
    after: Seq<Ship>,
    i: int,
    start: (usize, usize),
    horizontal: bool,
) -> bool {
    after == before.update(
        i,
        before[i].spec_place(cells_mask(placement_cells(start, before[i].spec_length(), horizontal))),
    )
}

/// The ships keep their names and lengths, and placed ships stay placed.
pub open spec fn placed_more(before: Seq<Ship>, after: Seq<Ship>) -> bool {
    &&& after.len() == before.len()
    &&& forall|j: int|
        0 <= j < before.len() ==> (#[trigger] after[j]).spec_name() == before[j].spec_name()
            && after[j].spec_length() == before[j].spec_length() && (before[j].spec_placed()
            ==> after[j].spec_placed())
}

impl Board {
    /// Places the ship called `name` from `start` on, rightwards when `horizontal`,
    /// else downwards, if every cell is on the grid and free of ships.
    pub fn place_ship(&mut self, name: &str, start: (usize, usize), horizontal: bool) -> (r: Result<
        (),
        GameplayError,
    >)
        requires
            old(self).wf(),
        ensures
            final(self).wf(),
            final(self).spec_guessed() == old(self).spec_guessed(),
            r.is_err() ==> *final(self) == *old(self),
            (forall|j: int|
                0 <= j < old(self).spec_ships().len() ==> !same_name(
                    #[trigger] old(self).spec_ships()[j].spec_name(),
                    name,
                )) ==> r == Err::<(), GameplayError>(GameplayError::ShipNotFound) && *final(self)
                == *old(self),
            forall|i: int|
                #[trigger] first_named(old(self).spec_ships(), name, i) ==> {
                    let cells = placement_cells(
                        start,
                        old(self).spec_ships()[i].spec_length(),
                        horizontal,
                    );
                    let taken = coords_union(select(old(self).spec_ships(), true, true));
                    &&& !fits(cells, taken) ==> r == Err::<(), GameplayError>(
                        GameplayError::InvalidPlacement,
                    ) && *final(self) == *old(self)
                    &&& fits(cells, taken) ==> r.is_ok() && placed_at(
                        old(self).spec_ships(),
                        final(self).spec_ships(),
                        i,
                        start,
                        horizontal,
                    )
                },
    {
        let existing = self.ship_coords(true, true);
        let length = match self.fleet.get_ship(name) {
            Ok(s) => s.length(),
            Err(e) => return Err(e),
        };
        let ghost ships = self.spec_ships();
        proof {
            let i = choose|i: int|
                0 <= i < ships.len() && ships[i].spec_length() == length && same_name(
                    ships[i].spec_name(),
                    name,
                ) && forall|j: int| 0 <= j < i ==> !same_name(#[trigger] ships[j].spec_name(), name);
            assert forall|k: int| #[trigger] first_named(ships, name, k) implies k == i by {
                if k < i {
                    assert(!same_name(ships[k].spec_name(), name));
                }
                if i < k {
                    assert(!same_name(ships[i].spec_name(), name));
                }
            }
            assert(first_named(ships, name, i));
            assert(1 <= ships[i].spec_length() <= CELL_COUNT);
        }
        if start.0 >= GRID_SIZE || start.1 >= GRID_SIZE {
            proof {
                let cells = placement_cells(start, length, horizontal);
                assert(cells[0] == start);
            }
            return Err(GameplayError::InvalidPlacement);
        }
        let proposed = self.calc_placement(start, length, horizontal);
        if !self.valid_placement(&proposed, existing) {
            return Err(GameplayError::InvalidPlacement);
        }
        proof {
            let cells = proposed@;
            assert forall|a: int, b: int|
                0 <= a < b < cells.len() implies coord_bit(#[trigger] cells[a]) != coord_bit(
                #[trigger] cells[b],
            ) by {
                if !horizontal {
                    let s0 = start.0 as int;
                    assert((s0 + a) * 10 != (s0 + b) * 10) by (nonlinear_arith)
                        requires
                            a < b,
                    ;
                }
            }
        }
        let mask = Self::mask_of_cells(&proposed);
        self.fleet.place_ship(name, mask)
    }

    /// Places the ship called `name` at random cells, trying a bounded number of
    /// times.
    pub fn randomly_place_ship(&mut self, name: &str) -> (r: Result<(), GameplayError>)
        requires
            old(self).wf(),
        ensures
            final(self).wf(),
            final(self).spec_guessed() == old(self).spec_guessed(),
            r.is_err() ==> r == Err::<(), GameplayError>(GameplayError::CantFindValidPlacement)
                && *final(self) == *old(self),
            r.is_ok() ==> exists|i: int, start: (usize, usize), horizontal: bool|
                first_named(old(self).spec_ships(), name, i) && fits(
                    placement_cells(start, old(self).spec_ships()[i].spec_length(), horizontal),
                    coords_union(select(old(self).spec_ships(), true, true)),
                ) && #[trigger] placed_at(
                    old(self).spec_ships(),
                    final(self).spec_ships(),
                    i,
                    start,
                    horizontal,
                ),
    {
        let mut tries: usize = 0;
        while tries < CELL_COUNT * 1000
            invariant
                self.wf(),
                *self == *old(self),
            decreases CELL_COUNT * 1000 - tries,
        {
            let k = random_below(CELL_COUNT as u64) as usize;
            let start = (k / GRID_SIZE, k % GRID_SIZE);
            let horizontal = random_bool();
            let ghost before = self.spec_ships();
            if self.place_ship(name, start, horizontal).is_ok() {
                proof {
                    if forall|j: int|
                        0 <= j < before.len() ==> !same_name(#[trigger] before[j].spec_name(), name) {
                        assert(false);
                    }
                    let i = choose|i: int|
                        0 <= i < before.len() && same_name(#[trigger] before[i].spec_name(), name)
                            && forall|j: int|
                            0 <= j < i ==> !same_name(#[trigger] before[j].spec_name(), name);
                    assert(first_named(before, name, i));
                }
                return Ok(());
            }
            tries = tries + 1;
        }
        Err(GameplayError::CantFindValidPlacement)
    }

    /// Places every unplaced ship at random.
    pub fn randomly_place_fleet(&mut self) -> (r: Result<(), GameplayError>)
        requires
            old(self).wf(),
        ensures
            final(self).wf(),
            final(self).spec_guessed() == old(self).spec_guessed(),
            placed_more(old(self).spec_ships(), final(self).spec_ships()),
            r.is_err() ==> r == Err::<(), GameplayError>(GameplayError::CantFindValidPlacement),
    {
        let mut i: usize = 0;
        let unplaced = self.fleet.unplaced_ships();
        while i < unplaced.len()
            invariant
                self.wf(),
                self.spec_guessed() == old(self).spec_guessed(),
                placed_more(old(self).spec_ships(), self.spec_ships()),
            decreases unplaced@.len() - i,
        {
            let ghost before = self.spec_ships();
            match self.randomly_place_ship(unplaced[i].name()) {
                Ok(_) => {
                    proof {
                        let (k, start, h) = choose|k: int, start: (usize, usize), h: bool|
                            first_named(before, unplaced@[i as int].spec_name(), k) && fits(
                                placement_cells(start, before[k].spec_length(), h),
                                coords_union(select(before, true, true)),
                            ) && #[trigger] placed_at(before, self.spec_ships(), k, start, h);
                        before[k].lemma_place(
                            cells_mask(placement_cells(start, before[k].spec_length(), h)),
                        );
                    }
                },
                Err(e) => return Err(e),
            }
            i = i + 1;
        }
        Ok(())
    }

    /// Takes a shot at `target`.
    pub fn guess(&mut self, target: (usize, usize)) -> (r: Result<GuessResult, GuessError>)
        requires
            old(self).wf(),
        ensures
            final(self).wf(),
            !in_grid(target.0 as int, target.1 as int) ==> r == Err::<GuessResult, GuessError>(
                GuessError::InvalidTarget,
            ) && *final(self) == *old(self),
            in_grid(target.0 as int, target.1 as int) && bit_on(
                old(self).spec_guessed(),
                coord_bit(target),
            ) ==> r == Err::<GuessResult, GuessError>(GuessError::AlreadyGuessed) && *final(self)
                == *old(self),
            in_grid(target.0 as int, target.1 as int) && !bit_on(
                old(self).spec_guessed(),
                coord_bit(target),
            ) ==> final(self).spec_guessed() == old(self).spec_guessed() | (1u128 << (coord_bit(
                target,
            ) as u128)) && fleet_guess(
                old(self).spec_ships(),
                final(self).spec_ships(),
                target,
                r,
            ),
    {
        if !self.is_valid_target(target) {
            return Err(GuessError::InvalidTarget);
        }
        let k = target.0 * GRID_SIZE + target.1;
        if contains(self.guessed, k) {
            return Err(GuessError::AlreadyGuessed);
        }
        let b = single(k);
        proof {
            lemma_or_bits(self.guessed, b);
        }
        self.guessed = self.guessed | b;
        self.fleet.guess(target)
    }

    /// Whether `target` is on the grid.
    fn is_valid_target(&self, target: (usize, usize)) -> (b: bool)
        requires
            self.wf(),
        ensures
            b == in_grid(target.0 as int, target.1 as int),
    {
        proof {
            lemma_all_cells();
        }
        if target.0 >= GRID_SIZE || target.1 >= GRID_SIZE {
            return false;
        }
        assert(target.0 * 10 + target.1 < 100) by (nonlinear_arith)
            requires
                target.0 < 10,
                target.1 < 10,
        ;
        contains(self.coordinates, target.0 * GRID_SIZE + target.1)
    }

    /// Takes a shot at a cell drawn at random among those not shot at yet.
    pub fn random_guess(&mut self) -> (r: Result<GuessResult, GuessError>)
        requires
            old(self).wf(),
        ensures
            final(self).wf(),
            (forall|i: int| 0 <= i < CELL_COUNT ==> #[trigger] bit_on(old(self).spec_guessed(), i))
                ==> r == Err::<GuessResult, GuessError>(GuessError::NoValidCoordinates) && *final(self) == *old(self),
            !(forall|i: int| 0 <= i < CELL_COUNT ==> #[trigger] bit_on(old(self).spec_guessed(), i))
                ==> exists|t: (
                usize,
                usize,
            )|
                in_grid(t.0 as int, t.1 as int) && !bit_on(old(self).spec_guessed(), coord_bit(t))
                    && final(self).spec_guessed() == old(self).spec_guessed() | (1u128 << (
                coord_bit(t) as u128)) && #[trigger] fleet_guess(
                    old(self).spec_ships(),
                    final(self).spec_ships(),
                    t,
                    r,
                ),
    {
        let free = self.unguessed_iter();
        if free.len() == 0 {
            return Err(GuessError::NoValidCoordinates);
        }
        let t = free[random_below(free.len() as u64) as usize];
        self.guess(t)
    }

    /// The cells not shot at yet, row by row.
    pub fn unguessed_iter(&self) -> (r: Vec<(usize, usize)>)
        requires
            self.wf(),
        ensures
            forall|j: int|
                0 <= j < r@.len() ==> in_grid(#[trigger] r@[j].0 as int, r@[j].1 as int) && !bit_on(
                    self.spec_guessed(),
                    coord_bit(r@[j]),
                ),
            forall|t: (usize, usize)|
                in_grid(t.0 as int, t.1 as int) && !bit_on(self.spec_guessed(), coord_bit(t))
                    ==> #[trigger] r@.contains(t),
            r@.len() == 0 <==> forall|i: int|
                0 <= i < CELL_COUNT ==> #[trigger] bit_on(self.spec_guessed(), i),
    {
        let mut r: Vec<(usize, usize)> = Vec::new();
        let mut row: usize = 0;
        while row < GRID_SIZE
            invariant
                row <= GRID_SIZE,
                forall|j: int|
                    0 <= j < r@.len() ==> in_grid(#[trigger] r@[j].0 as int, r@[j].1 as int)
                        && !bit_on(self.spec_guessed(), coord_bit(r@[j])) && r@[j].0 < row,
                forall|t: (usize, usize)|
                    in_grid(t.0 as int, t.1 as int) && t.0 < row && !bit_on(
                        self.spec_guessed(),
                        coord_bit(t),
                    ) ==> #[trigger] r@.contains(t),
            decreases GRID_SIZE - row,
        {
            let mut col: usize = 0;
            while col < GRID_SIZE
                invariant
                    row < GRID_SIZE,
                    col <= GRID_SIZE,
                    forall|j: int|
                        0 <= j < r@.len() ==> in_grid(#[trigger] r@[j].0 as int, r@[j].1 as int)
                            && !bit_on(self.spec_guessed(), coord_bit(r@[j])) && r@[j].0 <= row,
                    forall|t: (usize, usize)|
                        in_grid(t.0 as int, t.1 as int) && (t.0 < row || (t.0 == row && t.1 < col))
                            && !bit_on(self.spec_guessed(), coord_bit(t)) ==> #[trigger] r@.contains(t),
                decreases GRID_SIZE - col,
            {
                assert(row * 10 + col < 100) by (nonlinear_arith)
                    requires
                        row < 10,
                        col < 10,
                ;
                if !contains(self.guessed, row * GRID_SIZE + col) {
                    let ghost before = r@;
                    r.push((row, col));
                    proof {
                        assert forall|t: (usize, usize)|
                            in_grid(t.0 as int, t.1 as int) && (t.0 < row || (t.0 == row && t.1
                                < col + 1)) && !bit_on(self.spec_guessed(), coord_bit(t))
                                implies #[trigger] r@.contains(t) by {
                            if t == (row, col) {
                                assert(r@[r@.len() - 1] == t);
                            } else {
                                assert(before.contains(t));
                                let q = choose|q: int| 0 <= q < before.len() && before[q] == t;
                                assert(r@[q] == t);
                            }
                        }
                    }
                }
                col = col + 1;
            }
            row = row + 1;
        }
        proof {
            if r@.len() > 0 {
                let t = r@[0];
                assert(0 <= coord_bit(t) < 100) by (nonlinear_arith)
                    requires
                        0 <= t.0 < 10,
                        0 <= t.1 < 10,
                ;
            } else {
                assert forall|i: int| 0 <= i < CELL_COUNT implies #[trigger] bit_on(
                    self.spec_guessed(),
                    i,
                ) by {
                    let t = ((i / 10) as usize, (i % 10) as usize);
                    assert(coord_bit(t) == i);
                    if !bit_on(self.spec_guessed(), i) {
                        assert(r@.contains(t));
                    }
                }
            }
        }
        r
    }

    /// Where the player stands: placing ships, afloat, or sunk.
    pub fn player_state(&self) -> (s: PlayerState)
        ensures
            unplaced(self.spec_ships()).len() > 0 ==> s == PlayerState::Setup,
            unplaced(self.spec_ships()).len() == 0 && select(self.spec_ships(), true, false).len()
                > 0 ==> s == PlayerState::Alive,
            unplaced(self.spec_ships()).len() == 0 && select(self.spec_ships(), true, false).len()
                == 0 ==> s == PlayerState::Dead,
    {
        if self.fleet.unplaced_ships().len() > 0 {
            PlayerState::Setup
        } else if self.fleet.n_ships(true, false) > 0 {
            PlayerState::Alive
        } else {
            PlayerState::Dead
        }
    }

    /// The ships selected by sunk status, in fleet order.
    pub fn get_ships(&self, unsunk: bool, sunk: bool) -> (r: Vec<Ship>)
        ensures
            r@ == select(self.spec_ships(), unsunk, sunk),
    {
        self.fleet.get_ships(unsunk, sunk)
    }

    /// Number of ship cells still to hit.
    pub fn hits_remaining(&self) -> (n: usize)
        requires
            self.wf(),
        ensures
            n == if crate::fleet::hit_sum(select(self.spec_ships(), true, true))
                <= crate::fleet::length_sum(select(self.spec_ships(), true, true)) {
                crate::fleet::length_sum(select(self.spec_ships(), true, true))
                    - crate::fleet::hit_sum(select(self.spec_ships(), true, true))
            } else {
                0
            },
    {
        self.fleet.hits_remaining()
    }

    /// Lengths of the ships still afloat, in fleet order.
    pub fn ship_lengths_remaining(&self) -> (r: Vec<usize>)
        ensures
            r@ == select(self.spec_ships(), true, false).map_values(|s: Ship| s.spec_length()),
    {
        let ships = self.get_ships(true, false);
        let mut r: Vec<usize> = Vec::new();
        let mut i: usize = 0;
        while i < ships.len()
            invariant
                i <= ships@.len(),
                r@ == ships@.take(i as int).map_values(|s: Ship| s.spec_length()),
            decreases ships@.len() - i,
        {
            r.push(ships[i].length());
            assert(ships@.take(i + 1).map_values(|s: Ship| s.spec_length()) =~= r@);
            i = i + 1;
        }
        assert(ships@.take(i as int) =~= ships@);
        r
    }

    /// Name, length and whether it is sunk, for each ship.
    pub fn ship_statuses(&self) -> (r: Vec<(&'static str, usize, bool)>)
        ensures
            r@ == self.spec_ships().map_values(
                |s: Ship| (s.spec_name(), s.spec_length(), s.spec_sunk()),
            ),
    {
        self.fleet.ship_statuses()
    }

    /// What the board shows another player: the hit cells and the missed ones.
    pub fn share(&self) -> (r: (u128, u128))
        ensures
            r.0 == hits_union(select(self.spec_ships(), true, true)),
            forall|i: int|
                #[trigger] bit_on(r.1, i) <==> bit_on(self.spec_guessed(), i) && !bit_on(r.0, i),
    {
        let hits = self.hit_coords(true, true);
        let misses = self.miss_coords();
        (hits, misses)
    }
}

/// At most as many ships are afloat as the fleet has.
pub proof fn lemma_lengths_remaining(b: Board)
    requires
        b.wf(),
    ensures
        select(b.spec_ships(), true, false).len() <= SHIP_COUNT,
{
    crate::fleet::lemma_select_within(b.spec_ships(), true, false);
}

impl Board {
    /// Takes the shot that the heuristic draws.
    pub fn educated_guess(&mut self) -> (r: Result<GuessResult, GuessError>)
        requires
            old(self).wf(),
        ensures
            final(self).wf(),
            exists|t: (usize, usize)|
                in_grid(t.0 as int, t.1 as int) && #[trigger] shot_at(*old(self), *final(self), t, r),
    {
        let target = crate::probability::calc_pdf_and_guess(self);
        let r = self.guess(target);
        assert(shot_at(*old(self), *self, target, r));
        r
    }
}

impl crate::text::BoardView for Board {
    fn grid_size(&self) -> usize {
        self.gridsize
    }
}

} // verus!
