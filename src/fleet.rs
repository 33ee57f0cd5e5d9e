//! The fleet of one player: placement, shots and counts over its ships.
use vstd::prelude::*;
use vstd::string::StringSliceAdditionalSpecFns;
use crate::constants::{GameplayError, GuessError, GuessResult};
use crate::mask::{count_cells, lemma_count_at_most, on_grid, lemma_or_bits, CELL_COUNT};
use crate::ship::{coord_bit, Ship};
use crate::mask::{bit_on, in_grid};

verus! {

/// Number of ships of the standard fleet.
pub const SHIP_COUNT: usize = 5;

/// Whether two names are the same text.
pub open spec fn same_name(a: &str, b: &str) -> bool {
    a.spec_bytes() == b.spec_bytes()
}

/// Whether a ship is counted when asking for unsunk ships, sunk ships, or both.
pub open spec fn selected(s: Ship, unsunk: bool, sunk: bool) -> bool {
    (unsunk && !s.spec_sunk()) || (sunk && s.spec_sunk())
}

/// The ships selected by sunk status, in order.
pub open spec fn select(ships: Seq<Ship>, unsunk: bool, sunk: bool) -> Seq<Ship>
    decreases ships.len(),
{
    if ships.len() == 0 {
        ships
    } else {
        let rest = select(ships.drop_last(), unsunk, sunk);
        if selected(ships.last(), unsunk, sunk) {
            rest.push(ships.last())
        } else {
            rest
        }
    }
}

/// The ships not yet placed, in order.
pub open spec fn unplaced(ships: Seq<Ship>) -> Seq<Ship>
    decreases ships.len(),
{
    if ships.len() == 0 {
        ships
    } else {
        let rest = unplaced(ships.drop_last());
        if !ships.last().spec_placed() {
            rest.push(ships.last())
        } else {
            rest
        }
    }
}

/// Union of the cells of the ships.
pub open spec fn coords_union(ships: Seq<Ship>) -> u128
    decreases ships.len(),
{
    if ships.len() == 0 {
        0u128
    } else {
        coords_union(ships.drop_last()) | ships.last().spec_coords()
    }
}

/// Union of the hit cells of the ships.
pub open spec fn hits_union(ships: Seq<Ship>) -> u128
    decreases ships.len(),
{
    if ships.len() == 0 {
        0u128
    } else {
        hits_union(ships.drop_last()) | ships.last().spec_hits()
    }
}

/// Sum of the lengths of the ships.
pub open spec fn length_sum(ships: Seq<Ship>) -> nat
    decreases ships.len(),
{
    if ships.len() == 0 {
        0
    } else {
        length_sum(ships.drop_last()) + ships.last().spec_length() as nat
    }
}

/// Sum of the numbers of hit cells of the ships.
pub open spec fn hit_sum(ships: Seq<Ship>) -> nat
    decreases ships.len(),
{
    if ships.len() == 0 {
        0
    } else {
        hit_sum(ships.drop_last()) + count_cells(ships.last().spec_hits())
    }
}

/// Whether a shot at `target` concerns ship `s`: it is afloat and occupies the cell.
pub open spec fn responds(s: Ship, target: (usize, usize)) -> bool {
    !s.spec_sunk() && in_grid(target.0 as int, target.1 as int) && bit_on(
        s.spec_coords(),
        coord_bit(target),
    )
}

/// How a shot at `target` changes the ships and what it reports: the first
/// afloat ship on the cell takes it; with none, a miss that changes nothing.
pub open spec fn fleet_guess(
    before: Seq<Ship>,
    after: Seq<Ship>,
    target: (usize, usize),
    r: Result<GuessResult, GuessError>,
) -> bool {
    &&& (forall|i: int| 0 <= i < before.len() ==> !responds(#[trigger] before[i], target))
        ==> r == Ok::<GuessResult, GuessError>(GuessResult::Miss) && after == before
    &&& forall|i: int|
        0 <= i < before.len() && responds(#[trigger] before[i], target) && (forall|j: int|
            0 <= j < i ==> !responds(before[j], target)) ==> after == before.update(
            i,
            before[i].spec_guess(target).0,
        ) && r == before[i].spec_guess(target).1
}

/// The ships of one player.
pub struct Fleet {
    ships: Vec<Ship>,
}

impl Fleet {
    pub closed spec fn spec_ships(&self) -> Seq<Ship> {
        self.ships@
    }

    /// Each ship is well formed and no longer than the grid has cells; the fleet is
    /// the standard one in size.
    pub open spec fn wf(&self) -> bool {
        &&& self.spec_ships().len() == SHIP_COUNT
        &&& forall|i: int|
            0 <= i < self.spec_ships().len() ==> (#[trigger] self.spec_ships()[i]).wf()
                && 1 <= self.spec_ships()[i].spec_length() <= CELL_COUNT
    }

    /// The standard fleet, no ship placed.
    pub fn new() -> (f: Fleet)
        ensures
            f.wf(),
            forall|i: int|
                0 <= i < SHIP_COUNT ==> !(#[trigger] f.spec_ships()[i]).spec_placed()
                    && !f.spec_ships()[i].spec_sunk() && f.spec_ships()[i].spec_coords() == 0
                    && f.spec_ships()[i].spec_hits() == 0,
            f.spec_ships()[0].spec_length() == 5,
            f.spec_ships()[1].spec_length() == 4,
            f.spec_ships()[2].spec_length() == 3,
            f.spec_ships()[3].spec_length() == 3,
            f.spec_ships()[4].spec_length() == 2,
    {
        let mut ships: Vec<Ship> = Vec::new();
        ships.push(Ship::new("Carrier", 5));
        ships.push(Ship::new("Battleship", 4));
        ships.push(Ship::new("Cruiser", 3));
        ships.push(Ship::new("Submarine", 3));
        ships.push(Ship::new("Destroyer", 2));
        Fleet { ships }
    }

    /// Every ship, in fleet order.
    pub fn all_ships(&self) -> (r: Vec<Ship>)
        ensures
            r@ == self.spec_ships(),
    {
        let mut r: Vec<Ship> = Vec::new();
        let mut i: usize = 0;
        while i < self.ships.len()
            invariant
                i <= self.spec_ships().len(),
                r@ == self.spec_ships().take(i as int),
            decreases self.spec_ships().len() - i,
        {
            r.push(self.ships[i]);
            assert(r@ =~= self.spec_ships().take(i + 1));
            i = i + 1;
        }
        assert(r@ =~= self.spec_ships());
        r
    }

    /// Index of the first ship called `name`.
    fn ship_index(&self, name: &str) -> (r: Result<usize, GameplayError>)
        ensures
            match r {
                Ok(i) => i < self.spec_ships().len() && same_name(
                    self.spec_ships()[i as int].spec_name(),
                    name,
                ) && forall|j: int|
                    0 <= j < i ==> !same_name(#[trigger] self.spec_ships()[j].spec_name(), name),
                Err(e) => e == GameplayError::ShipNotFound && forall|j: int|
                    0 <= j < self.spec_ships().len() ==> !same_name(
                        #[trigger] self.spec_ships()[j].spec_name(),
                        name,
                    ),
            },
    {
        let mut i: usize = 0;
        while i < self.ships.len()
            invariant
                i <= self.spec_ships().len(),
                forall|j: int|
                    0 <= j < i ==> !same_name(#[trigger] self.spec_ships()[j].spec_name(), name),
            decreases self.spec_ships().len() - i,
        {
            if equal_text(self.ships[i].name(), name) {
                return Ok(i);
            }
            i = i + 1;
        }
        Err(GameplayError::ShipNotFound)
    }

    /// The first ship called `name`.
    pub fn get_ship(&self, name: &str) -> (r: Result<&Ship, GameplayError>)
        ensures
            match r {
                Ok(s) => exists|i: int|
                    0 <= i < self.spec_ships().len() && *s == self.spec_ships()[i] && same_name(
                        s.spec_name(),
                        name,
                    ) && forall|j: int|
                        0 <= j < i ==> !same_name(#[trigger] self.spec_ships()[j].spec_name(), name),
                Err(e) => e == GameplayError::ShipNotFound && forall|j: int|
                    0 <= j < self.spec_ships().len() ==> !same_name(
                        #[trigger] self.spec_ships()[j].spec_name(),
                        name,
                    ),
            },
    {
        match self.ship_index(name) {
            Ok(i) => Ok(&self.ships[i]),
            Err(e) => Err(e),
        }
    }

    /// The ships selected by sunk status, in fleet order.
    pub fn get_ships(&self, unsunk: bool, sunk: bool) -> (r: Vec<Ship>)
        ensures
            r@ == select(self.spec_ships(), unsunk, sunk),
    {
        let mut r: Vec<Ship> = Vec::new();
        let mut i: usize = 0;
        while i < self.ships.len()
            invariant
                i <= self.spec_ships().len(),
                r@ == select(self.spec_ships().take(i as int), unsunk, sunk),
            decreases self.spec_ships().len() - i,
        {
            let s = self.ships[i];
            assert(self.spec_ships().take(i + 1).drop_last() =~= self.spec_ships().take(i as int));
            if (unsunk && !s.is_sunk()) || (sunk && s.is_sunk()) {
                r.push(s);
            }
            i = i + 1;
        }
        assert(self.spec_ships().take(i as int) =~= self.spec_ships());
        r
    }

    /// Names and lengths of the ships selected by sunk status, in fleet order.
    pub fn get_ship_names_and_length(&self, unsunk: bool, sunk: bool) -> (r: Vec<
        (&'static str, usize),
    >)
        ensures
            r@ == select(self.spec_ships(), unsunk, sunk).map_values(
                |s: Ship| (s.spec_name(), s.spec_length()),
            ),
    {
        let ships = self.get_ships(unsunk, sunk);
        let mut r: Vec<(&'static str, usize)> = Vec::new();
        let mut i: usize = 0;
        while i < ships.len()
            invariant
                i <= ships@.len(),
                r@ == ships@.take(i as int).map_values(|s: Ship| (s.spec_name(), s.spec_length())),
            decreases ships@.len() - i,
        {
            r.push((ships[i].name(), ships[i].length()));
            assert(ships@.take(i + 1).map_values(|s: Ship| (s.spec_name(), s.spec_length()))
                =~= r@);
            i = i + 1;
        }
        assert(ships@.take(i as int) =~= ships@);
        r
    }

    /// Takes a shot at `target`: the first afloat ship on the cell takes it.
    pub fn guess(&mut self, target: (usize, usize)) -> (r: Result<GuessResult, GuessError>)
        requires
            old(self).wf(),
        ensures
            final(self).wf(),
            fleet_guess(old(self).spec_ships(), final(self).spec_ships(), target, r),
    {
        let mut i: usize = 0;
        while i < self.ships.len()
            invariant
                self.wf(),
                *self == *old(self),
                i <= self.spec_ships().len(),
                forall|j: int| 0 <= j < i ==> !responds(#[trigger] self.spec_ships()[j], target),
            decreases self.spec_ships().len() - i,
        {
            if !self.ships[i].is_sunk() {
                let mut s = self.ships[i];
                assert(s.wf());
                let res = s.guess(target);
                match res {
                    Ok(GuessResult::Miss) => {},
                    _ => {
                        self.ships.set(i, s);
                        return res;
                    },
                }
            }
            i = i + 1;
        }
        Ok(GuessResult::Miss)
    }

    /// The ships not yet placed, in fleet order.
    pub fn unplaced_ships(&self) -> (r: Vec<Ship>)
        ensures
            r@ == unplaced(self.spec_ships()),
    {
        let mut r: Vec<Ship> = Vec::new();
        let mut i: usize = 0;
        while i < self.ships.len()
            invariant
                i <= self.spec_ships().len(),
                r@ == unplaced(self.spec_ships().take(i as int)),
            decreases self.spec_ships().len() - i,
        {
            let s = self.ships[i];
            assert(self.spec_ships().take(i + 1).drop_last() =~= self.spec_ships().take(i as int));
            if !s.is_placed() {
                r.push(s);
            }
            i = i + 1;
        }
        assert(self.spec_ships().take(i as int) =~= self.spec_ships());
        r
    }

    /// Places the ship called `name` on `coords`.
    pub fn place_ship(&mut self, name: &str, coords: u128) -> (r: Result<(), GameplayError>)
        requires
            old(self).wf(),
            on_grid(coords),
        ensures
            final(self).wf(),
            r.is_err() ==> *final(self) == *old(self),
            (forall|j: int|
                0 <= j < old(self).spec_ships().len() ==> !same_name(
                    #[trigger] old(self).spec_ships()[j].spec_name(),
                    name,
                )) ==> r == Err::<(), GameplayError>(GameplayError::ShipNotFound) && final(self).spec_ships() == old(self).spec_ships(),
            forall|i: int|
                0 <= i < old(self).spec_ships().len() && same_name(
                    #[trigger] old(self).spec_ships()[i].spec_name(),
                    name,
                ) && (forall|j: int|
                    0 <= j < i ==> !same_name(old(self).spec_ships()[j].spec_name(), name)) ==> {
                    let s = old(self).spec_ships()[i];
                    &&& count_cells(coords) != s.spec_length() ==> r == Err::<(), GameplayError>(
                        GameplayError::InvalidPlacement,
                    ) && final(self).spec_ships() == old(self).spec_ships()
                    &&& count_cells(coords) == s.spec_length() ==> r.is_ok() && final(self).spec_ships()
                        == old(self).spec_ships().update(i, s.spec_place(coords))
                },
    {
        let i = match self.ship_index(name) {
            Ok(i) => i,
            Err(e) => return Err(e),
        };
        let mut s = self.ships[i];
        let r = s.place(coords);
        if r.is_ok() {
            self.ships.set(i, s);
        }
        r
    }
}

impl Fleet {
    /// Cells of the ships selected by sunk status.
    pub fn ship_coords(&self, unsunk: bool, sunk: bool) -> (m: u128)
        ensures
            m == coords_union(select(self.spec_ships(), unsunk, sunk)),
    {
        let ships = self.get_ships(unsunk, sunk);
        let mut m: u128 = 0;
        let mut i: usize = 0;
        while i < ships.len()
            invariant
                i <= ships@.len(),
                m == coords_union(ships@.take(i as int)),
            decreases ships@.len() - i,
        {
            assert(ships@.take(i + 1).drop_last() =~= ships@.take(i as int));
            m = m | ships[i].coords();
            i = i + 1;
        }
        assert(ships@.take(i as int) =~= ships@);
        m
    }

    /// Hit cells of the ships selected by sunk status.
    pub fn hit_coords(&self, unsunk: bool, sunk: bool) -> (m: u128)
        ensures
            m == hits_union(select(self.spec_ships(), unsunk, sunk)),
    {
        let ships = self.get_ships(unsunk, sunk);
        let mut m: u128 = 0;
        let mut i: usize = 0;
        while i < ships.len()
            invariant
                i <= ships@.len(),
                m == hits_union(ships@.take(i as int)),
            decreases ships@.len() - i,
        {
            assert(ships@.take(i + 1).drop_last() =~= ships@.take(i as int));
            m = m | ships[i].hits();
            i = i + 1;
        }
        assert(ships@.take(i as int) =~= ships@);
        m
    }

    /// Number of ships selected by sunk status.
    pub fn n_ships(&self, unsunk: bool, sunk: bool) -> (n: usize)
        ensures
            n == select(self.spec_ships(), unsunk, sunk).len(),
    {
        self.get_ships(unsunk, sunk).len()
    }

    /// Sum of the lengths of the ships selected by sunk status.
    pub fn n_ship_coords(&self, unsunk: bool, sunk: bool) -> (n: usize)
        requires
            self.wf(),
        ensures
            n == length_sum(select(self.spec_ships(), unsunk, sunk)),
    {
        let ships = self.get_ships(unsunk, sunk);
        proof {
            lemma_select_within(self.spec_ships(), unsunk, sunk);
        }
        let mut n: usize = 0;
        let mut i: usize = 0;
        while i < ships.len()
            invariant
                i <= ships@.len(),
                ships@.len() <= SHIP_COUNT,
                forall|k: int| 0 <= k < ships@.len() ==> (#[trigger] ships@[k]).spec_length() <= CELL_COUNT,
                n == length_sum(ships@.take(i as int)),
                n <= i * CELL_COUNT,
            decreases ships@.len() - i,
        {
            assert(ships@.take(i + 1).drop_last() =~= ships@.take(i as int));
            n = n + ships[i].length();
            i = i + 1;
        }
        assert(ships@.take(i as int) =~= ships@);
        n
    }

    /// Sum of the numbers of hit cells of the ships selected by sunk status.
    pub fn n_ship_hits(&self, unsunk: bool, sunk: bool) -> (n: usize)
        requires
            self.wf(),
        ensures
            n == hit_sum(select(self.spec_ships(), unsunk, sunk)),
    {
        let ships = self.get_ships(unsunk, sunk);
        proof {
            lemma_select_within(self.spec_ships(), unsunk, sunk);
        }
        let mut n: usize = 0;
        let mut i: usize = 0;
        while i < ships.len()
            invariant
                i <= ships@.len(),
                ships@.len() <= SHIP_COUNT,
                n == hit_sum(ships@.take(i as int)),
                n <= i * 128,
            decreases ships@.len() - i,
        {
            assert(ships@.take(i + 1).drop_last() =~= ships@.take(i as int));
            let h = crate::mask::cell_count(ships[i].hits());
            n = n + h;
            i = i + 1;
        }
        assert(ships@.take(i as int) =~= ships@);
        n
    }

    /// Sum of the lengths of every ship.
    pub fn total_hits(&self) -> (n: usize)
        requires
            self.wf(),
        ensures
            n == length_sum(select(self.spec_ships(), true, true)),
    {
        self.n_ship_coords(true, true)
    }

    /// Number of ship cells still to hit: the total length less the hits taken,
    /// or zero when more cells were hit than the lengths add up to.
    pub fn hits_remaining(&self) -> (n: usize)
        requires
            self.wf(),
        ensures
            n == if hit_sum(select(self.spec_ships(), true, true)) <= length_sum(
                select(self.spec_ships(), true, true),
            ) {
                length_sum(select(self.spec_ships(), true, true)) - hit_sum(
                    select(self.spec_ships(), true, true),
                )
            } else {
                0
            },
    {
        let total = self.total_hits();
        let hits = self.n_ship_hits(true, true);
        if hits <= total {
            total - hits
        } else {
            0
        }
    }

    /// Name, length and whether it is sunk, for each ship in fleet order.
    pub fn ship_statuses(&self) -> (r: Vec<(&'static str, usize, bool)>)
        ensures
            r@ == self.spec_ships().map_values(
                |s: Ship| (s.spec_name(), s.spec_length(), s.spec_sunk()),
            ),
    {
        let mut r: Vec<(&'static str, usize, bool)> = Vec::new();
        let mut i: usize = 0;
        while i < self.ships.len()
            invariant
                i <= self.spec_ships().len(),
                r@ == self.spec_ships().take(i as int).map_values(
                    |s: Ship| (s.spec_name(), s.spec_length(), s.spec_sunk()),
                ),
            decreases self.spec_ships().len() - i,
        {
            let s = self.ships[i];
            r.push((s.name(), s.length(), s.is_sunk()));
            assert(self.spec_ships().take(i + 1).map_values(
                |s: Ship| (s.spec_name(), s.spec_length(), s.spec_sunk()),
            ) =~= r@);
            i = i + 1;
        }
        assert(self.spec_ships().take(i as int) =~= self.spec_ships());
        r
    }
}

/// When no ship is placed, every ship is unplaced.
pub proof fn lemma_unplaced_all(ships: Seq<Ship>)
    requires
        forall|i: int| 0 <= i < ships.len() ==> !(#[trigger] ships[i]).spec_placed(),
    ensures
        unplaced(ships) == ships,
    decreases ships.len(),
{
    if ships.len() > 0 {
        lemma_unplaced_all(ships.drop_last());
        assert(ships.drop_last().push(ships.last()) =~= ships);
    }
}

/// The selected ships are among the given ones: no more of them, each one of them.
pub proof fn lemma_select_within(ships: Seq<Ship>, unsunk: bool, sunk: bool)
    ensures
        select(ships, unsunk, sunk).len() <= ships.len(),
        forall|k: int|
            0 <= k < select(ships, unsunk, sunk).len() ==> ships.contains(
                #[trigger] select(ships, unsunk, sunk)[k],
            ),
    decreases ships.len(),
{
    if ships.len() > 0 {
        lemma_select_within(ships.drop_last(), unsunk, sunk);
        let rest = select(ships.drop_last(), unsunk, sunk);
        assert forall|k: int| 0 <= k < select(ships, unsunk, sunk).len() implies ships.contains(
            #[trigger] select(ships, unsunk, sunk)[k],
        ) by {
            if k < rest.len() {
                let x = rest[k];
                let j = choose|j: int| 0 <= j < ships.drop_last().len() && ships.drop_last()[j] == x;
                assert(ships[j] == x);
            } else {
                assert(ships[ships.len() - 1] == ships.last());
            }
        }
    }
}

/// Whether two texts are the same, byte for byte.
pub fn equal_text(a: &str, b: &str) -> (r: bool)
    ensures
        r == same_name(a, b),
{
    let x = a.as_bytes();
    let y = b.as_bytes();
    if x.len() != y.len() {
        return false;
    }
    let mut i: usize = 0;
    while i < x.len()
        invariant
            x@ == a.spec_bytes(),
            y@ == b.spec_bytes(),
            x@.len() == y@.len(),
            i <= x@.len(),
            forall|j: int| 0 <= j < i ==> x@[j] == y@[j],
        decreases x@.len() - i,
    {
        if x[i] != y[i] {
            return false;
        }
        i = i + 1;
    }
    assert(x@ =~= y@);
    true
}

} // verus!
