//! Outcomes, errors and states of the game.
use vstd::prelude::*;
use vstd::string::StringExecFns;

verus! {

/// The result of a shot.
#[derive(Debug, PartialEq, Eq, Clone, Copy)]
pub enum GuessResult {
    /// The shot missed every ship.
    Miss,
    /// The shot hit a ship without sinking it.
    Hit,
    /// The shot sank the named ship.
    Sunk(&'static str),
}

impl GuessResult {
    /// The text that reports the result.
    pub open spec fn spec_describe(self) -> Seq<char> {
        match self {
            GuessResult::Miss => "Miss"@,
            GuessResult::Hit => "Hit"@,
            GuessResult::Sunk(name) => "The "@ + name@ + " was sunk!"@,
        }
    }

    /// The text that reports the result.
    pub fn describe(&self) -> (s: String)
        ensures
            s@ == self.spec_describe(),
    {
        match self {
            GuessResult::Miss => <String as StringExecFns>::from_str("Miss"),
            GuessResult::Hit => <String as StringExecFns>::from_str("Hit"),
            GuessResult::Sunk(name) => {
                let mut s = <String as StringExecFns>::from_str("The ");
                s.append(name);
                s.append(" was sunk!");
                s
            },
        }
    }
}

/// Why a shot was refused.
#[derive(Debug, PartialEq, Eq, Structural, Clone, Copy)]
pub enum GuessError {
    /// The cell was already shot at.
    AlreadyGuessed,
    /// The cell is not on the grid.
    InvalidTarget,
    /// Every cell was already shot at.
    NoValidCoordinates,
    /// No random cell could be drawn.
    RandomGuessFailed,
}

/// Why a placement or a lookup failed.
#[derive(Debug, PartialEq, Eq, Structural, Clone, Copy)]
pub enum GameplayError {
    /// The placement overlaps another ship, leaves the grid or has the wrong size.
    InvalidPlacement,
    /// No valid placement was found for the ship.
    CantFindValidPlacement,
    /// No ship has that name.
    ShipNotFound,
    /// No coordinate is left.
    NoValidCoordinates,
}

/// Where a player stands.
#[derive(Debug, PartialEq, Eq, Structural, Clone, Copy)]
pub enum PlayerState {
    /// Some ship is still to be placed.
    Setup,
    /// Some ship is still afloat.
    Alive,
    /// Every ship has been sunk.
    Dead,
}

/// What a cell of a rendered board shows.
#[derive(Debug, PartialEq, Eq, Structural, Clone, Copy)]
pub enum Cell {
    Empty,
    Ship,
    Hit,
    Miss,
}

impl Cell {
    /// The character that shows the cell.
    pub open spec fn spec_icon(self) -> char {
        match self {
            Cell::Empty => '.',
            Cell::Ship => '\u{25a0}',
            Cell::Hit => 'X',
            Cell::Miss => 'O',
        }
    }

    /// The character that shows the cell.
    pub fn icon(&self) -> (c: char)
        ensures
            c == self.spec_icon(),
    {
        match self {
            Cell::Empty => '.',
            Cell::Ship => '\u{25a0}',
            Cell::Hit => 'X',
            Cell::Miss => 'O',
        }
    }
}

} // verus!
