//! A ship: its name, its length, the cells it occupies and the cells hit.
use vstd::prelude::*;
use crate::constants::{GameplayError, GuessError, GuessResult};
use crate::mask::{
    cell_count, cell_index, contains, count_cells, bit_on, in_grid, lemma_count_subset,
    lemma_or_bits, lemma_subset_bits, on_grid, single, subset, GRID_SIZE,
};

verus! {

/// A single ship of the game.
#[derive(Clone, Copy)]
pub struct Ship {
    name: &'static str,
    length: usize,
    coords: u128,
    hits: u128,
    placed: bool,
    sunk: bool,
}

/// The bit of an on-grid coordinate.
pub open spec fn coord_bit(target: (usize, usize)) -> int {
    cell_index(target.0 as int, target.1 as int)
}

impl Ship {
    pub closed spec fn spec_name(&self) -> &'static str {
        self.name
    }

    pub closed spec fn spec_length(&self) -> usize {
        self.length
    }

    /// The cells the ship occupies.
    pub closed spec fn spec_coords(&self) -> u128 {
        self.coords
    }

    /// The cells of the ship that were hit.
    pub closed spec fn spec_hits(&self) -> u128 {
        self.hits
    }

    pub closed spec fn spec_placed(&self) -> bool {
        self.placed
    }

    pub closed spec fn spec_sunk(&self) -> bool {
        self.sunk
    }

    /// The ship after a shot at `target`, and what the shot reports.
    pub closed spec fn spec_guess(self, target: (usize, usize)) -> (Ship, Result<GuessResult, GuessError>) {
        let on = in_grid(target.0 as int, target.1 as int);
        let t = coord_bit(target);
        if on && bit_on(self.hits, t) {
            (self, Err(GuessError::AlreadyGuessed))
        } else if !on || !bit_on(self.coords, t) {
            (self, Ok(GuessResult::Miss))
        } else {
            let h = self.hits | (1u128 << (t as u128));
            if count_cells(h) == count_cells(self.coords) {
                (Ship { hits: h, sunk: true, ..self }, Ok(GuessResult::Sunk(self.name)))
            } else {
                (Ship { hits: h, ..self }, Ok(GuessResult::Hit))
            }
        }
    }

    /// The ship once placed on `coords` as well.
    pub closed spec fn spec_place(self, coords: u128) -> Ship {
        Ship { coords: self.coords | coords, placed: true, ..self }
    }

    /// Placing keeps the name, the length, the hits and whether the ship is sunk.
    pub proof fn lemma_place(self, coords: u128)
        ensures
            self.spec_place(coords).spec_name() == self.spec_name(),
            self.spec_place(coords).spec_length() == self.spec_length(),
            self.spec_place(coords).spec_hits() == self.spec_hits(),
            self.spec_place(coords).spec_sunk() == self.spec_sunk(),
            self.spec_place(coords).spec_coords() == self.spec_coords() | coords,
            self.spec_place(coords).spec_placed(),
    {
    }

    /// Hits lie on the ship, the ship on the grid, and only a hit ship is sunk.
    pub open spec fn wf(&self) -> bool {
        &&& subset(self.spec_hits(), self.spec_coords())
        &&& on_grid(self.spec_coords())
        &&& self.spec_sunk() ==> self.spec_hits() != 0
    }

    /// A ship not yet placed.
    pub fn new(name: &'static str, length: usize) -> (s: Ship)
        ensures
            s.wf(),
            s.spec_name() == name,
            s.spec_length() == length,
            s.spec_coords() == 0,
            s.spec_hits() == 0,
            !s.spec_placed(),
            !s.spec_sunk(),
    {
        let s = Ship { name, length, coords: 0, hits: 0, placed: false, sunk: false };
        proof {
            assert(0u128 & 0u128 == 0u128) by (bit_vector);
            assert forall|i: int| #[trigger] bit_on(0u128, i) implies 0 <= i < 100 by {
                crate::mask::lemma_bit_zero(i as u128);
            }
        }
        s
    }

    /// Places the ship on `coords`, which must count exactly its length.
    pub fn place(&mut self, coords: u128) -> (r: Result<(), GameplayError>)
        requires
            old(self).wf(),
            on_grid(coords),
        ensures
            final(self).wf(),
            count_cells(coords) != old(self).spec_length() ==> r == Err::<(), GameplayError>(
                GameplayError::InvalidPlacement,
            ) && *final(self) == *old(self),
            count_cells(coords) == old(self).spec_length() ==> {
                &&& r.is_ok()
                &&& *final(self) == old(self).spec_place(coords)
                &&& final(self).spec_coords() == old(self).spec_coords() | coords
                &&& final(self).spec_placed()
                &&& final(self).spec_name() == old(self).spec_name()
                &&& final(self).spec_length() == old(self).spec_length()
                &&& final(self).spec_hits() == old(self).spec_hits()
                &&& final(self).spec_sunk() == old(self).spec_sunk()
            },
    {
        if cell_count(coords) != self.length {
            return Err(GameplayError::InvalidPlacement);
        }
        proof {
            lemma_or_bits(self.coords, coords);
            lemma_subset_bits(self.hits, self.coords);
            lemma_subset_bits(self.hits, self.coords | coords);
        }
        self.coords = self.coords | coords;
        self.placed = true;
        Ok(())
    }

    /// Takes a shot at `target`.
    pub fn guess(&mut self, target: (usize, usize)) -> (r: Result<GuessResult, GuessError>)
        requires
            old(self).wf(),
        ensures
            final(self).wf(),
            (*final(self), r) == old(self).spec_guess(target),
            final(self).spec_name() == old(self).spec_name(),
            final(self).spec_length() == old(self).spec_length(),
            final(self).spec_coords() == old(self).spec_coords(),
            final(self).spec_placed() == old(self).spec_placed(),
            !in_grid(target.0 as int, target.1 as int) || !bit_on(
                old(self).spec_coords(),
                coord_bit(target),
            ) ==> r == Ok::<GuessResult, GuessError>(GuessResult::Miss) && *final(self) == *old(self),
            in_grid(target.0 as int, target.1 as int) && bit_on(old(self).spec_hits(), coord_bit(target))
                ==> r == Err::<GuessResult, GuessError>(GuessError::AlreadyGuessed) && *final(self)
                == *old(self),
            in_grid(target.0 as int, target.1 as int) && bit_on(old(self).spec_coords(), coord_bit(target))
                && !bit_on(old(self).spec_hits(), coord_bit(target)) ==> {
                &&& final(self).spec_hits() == old(self).spec_hits() | (1u128 << (coord_bit(
                    target,
                ) as u128))
                &&& count_cells(final(self).spec_hits()) == count_cells(old(self).spec_coords())
                    ==> final(self).spec_sunk() && r == Ok::<GuessResult, GuessError>(
                    GuessResult::Sunk(old(self).spec_name()),
                )
                &&& count_cells(final(self).spec_hits()) != count_cells(old(self).spec_coords())
                    ==> final(self).spec_sunk() == old(self).spec_sunk() && r == Ok::<
                    GuessResult,
                    GuessError,
                >(GuessResult::Hit)
            },
    {
        let (row, col) = target;
        if row >= GRID_SIZE || col >= GRID_SIZE {
            return Ok(GuessResult::Miss);
        }
        let bit = row * GRID_SIZE + col;
        if contains(self.hits, bit) {
            proof {
                lemma_subset_bits(self.hits, self.coords);
            }
            return Err(GuessError::AlreadyGuessed);
        }
        if !contains(self.coords, bit) {
            return Ok(GuessResult::Miss);
        }
        let b = single(bit);
        proof {
            lemma_or_bits(self.hits, b);
            lemma_subset_bits(self.hits, self.coords);
            lemma_subset_bits(self.hits | b, self.coords);
            crate::mask::lemma_bit_zero(bit as u128);
        }
        self.hits = self.hits | b;
        if self.hits_remaining() == 0 {
            self.sunk = true;
            Ok(GuessResult::Sunk(self.name))
        } else {
            Ok(GuessResult::Hit)
        }
    }

    pub fn name(&self) -> (n: &'static str)
        ensures
            n == self.spec_name(),
    {
        self.name
    }

    pub fn length(&self) -> (n: usize)
        ensures
            n == self.spec_length(),
    {
        self.length
    }

    /// The cells the ship occupies.
    pub fn coords(&self) -> (m: u128)
        ensures
            m == self.spec_coords(),
    {
        self.coords
    }

    /// The cells of the ship that were hit.
    pub fn hits(&self) -> (m: u128)
        ensures
            m == self.spec_hits(),
    {
        self.hits
    }

    pub fn is_placed(&self) -> (b: bool)
        ensures
            b == self.spec_placed(),
    {
        self.placed
    }

    pub fn is_sunk(&self) -> (b: bool)
        ensures
            b == self.spec_sunk(),
    {
        self.sunk
    }

    /// Number of cells of the ship not yet hit.
    pub fn hits_remaining(&self) -> (n: usize)
        requires
            subset(self.spec_hits(), self.spec_coords()),
        ensures
            n == count_cells(self.spec_coords()) - count_cells(self.spec_hits()),
    {
        proof {
            lemma_count_subset(self.hits, self.coords, 128);
        }
        cell_count(self.coords) - cell_count(self.hits)
    }
}

} // verus!
