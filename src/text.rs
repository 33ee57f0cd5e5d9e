//! Text of a board and of a fleet's status, as shown to players.
use vstd::prelude::*;
use vstd::string::StringExecFns;
use crate::board::Board;
use crate::constants::{Cell, PlayerState};
use crate::fleet::{coords_union, hits_union, select};
use crate::mask::{bit_on, contains, GRID_SIZE};
use crate::ship::Ship;

verus! {

/// The character of a decimal digit.
pub open spec fn digit(d: int) -> char {
    seq!['0', '1', '2', '3', '4', '5', '6', '7', '8', '9'][d]
}

/// The decimal digits of `n`.
pub open spec fn decimal(n: nat) -> Seq<char>
    decreases n,
{
    if n < 10 {
        seq![digit(n as int)]
    } else {
        decimal(n / 10).push(digit((n % 10) as int))
    }
}

/// The letter that names row `r`.
pub open spec fn row_letter(r: int) -> char {
    seq!['A', 'B', 'C', 'D', 'E', 'F', 'G', 'H', 'I', 'J'][r]
}

/// The header line up to column `cols`: three spaces, then each column number
/// between spaces.
pub open spec fn header_text(cols: nat) -> Seq<char>
    decreases cols,
{
    if cols == 0 {
        seq![' ', ' ', ' ']
    } else {
        header_text((cols - 1) as nat) + seq![' '] + decimal(cols) + seq![' ']
    }
}

/// What the cell at bit `i` shows: a hit or a miss where shot at, a ship where
/// revealed, else empty.
pub open spec fn cell_char(guessed: u128, hits: u128, ships: u128, reveal: bool, i: int) -> char {
    if bit_on(guessed, i) {
        if bit_on(hits, i) {
            Cell::Hit.spec_icon()
        } else {
            Cell::Miss.spec_icon()
        }
    } else if reveal && bit_on(ships, i) {
        Cell::Ship.spec_icon()
    } else {
        Cell::Empty.spec_icon()
    }
}

/// The cells of row `r` up to column `cols`, each between spaces.
pub open spec fn row_cells(guessed: u128, hits: u128, ships: u128, reveal: bool, r: int, cols: nat) -> Seq<
    char,
>
    decreases cols,
{
    if cols == 0 {
        Seq::empty()
    } else {
        row_cells(guessed, hits, ships, reveal, r, (cols - 1) as nat) + seq![
            ' ',
            cell_char(guessed, hits, ships, reveal, r * GRID_SIZE + cols - 1),
            ' ',
        ]
    }
}

/// The lines of rows `0..rows`: the row letter, a space, the cells, a newline.
pub open spec fn rows_text(guessed: u128, hits: u128, ships: u128, reveal: bool, rows: nat) -> Seq<char>
    decreases rows,
{
    if rows == 0 {
        Seq::empty()
    } else {
        rows_text(guessed, hits, ships, reveal, (rows - 1) as nat) + seq![row_letter(rows - 1), ' ']
            + row_cells(guessed, hits, ships, reveal, rows - 1, GRID_SIZE as nat) + seq!['\n']
    }
}

/// The whole board: the header line, then one line per row.
pub open spec fn board_text(guessed: u128, hits: u128, ships: u128, reveal: bool) -> Seq<char> {
    header_text(GRID_SIZE as nat) + seq!['\n'] + rows_text(guessed, hits, ships, reveal, GRID_SIZE as nat)
}

/// The status of one ship: its name, its length in parentheses, a colon, and a
/// crossed box when sunk or an empty box when afloat.
pub open spec fn status_text(s: Ship) -> Seq<char> {
    s.spec_name()@ + seq!['('] + decimal(s.spec_length() as nat) + seq![')', ':'] + seq![
        if s.spec_sunk() {
            '\u{2612}'
        } else {
            '\u{2610}'
        },
    ]
}

/// The statuses of the ships, separated by single spaces.
pub open spec fn statuses_text(ships: Seq<Ship>) -> Seq<char>
    decreases ships.len(),
{
    if ships.len() == 0 {
        Seq::empty()
    } else if ships.len() == 1 {
        status_text(ships[0])
    } else {
        statuses_text(ships.drop_last()) + seq![' '] + status_text(ships.last())
    }
}

/// Relies on `String::push`: the character is appended.
#[verifier::external_body]
fn push_char(s: &mut String, c: char)
    ensures
        final(s)@ == old(s)@.push(c),
{
    s.push(c)
}

/// Appends the decimal digits of `n`.
fn push_decimal(s: &mut String, n: usize)
    ensures
        final(s)@ == old(s)@ + decimal(n as nat),
    decreases n,
{
    let d = n % 10;
    let c = if d == 0 {
        '0'
    } else if d == 1 {
        '1'
    } else if d == 2 {
        '2'
    } else if d == 3 {
        '3'
    } else if d == 4 {
        '4'
    } else if d == 5 {
        '5'
    } else if d == 6 {
        '6'
    } else if d == 7 {
        '7'
    } else if d == 8 {
        '8'
    } else {
        '9'
    };
    assert(c == digit(d as int));
    if n >= 10 {
        push_decimal(s, n / 10);
    }
    push_char(s, c);
    assert(final(s)@ =~= old(s)@ + decimal(n as nat));
}

/// The letter that names row `r`.
fn letter(r: usize) -> (c: char)
    requires
        r < GRID_SIZE,
    ensures
        c == row_letter(r as int),
{
    if r == 0 {
        'A'
    } else if r == 1 {
        'B'
    } else if r == 2 {
        'C'
    } else if r == 3 {
        'D'
    } else if r == 4 {
        'E'
    } else if r == 5 {
        'F'
    } else if r == 6 {
        'G'
    } else if r == 7 {
        'H'
    } else if r == 8 {
        'I'
    } else {
        'J'
    }
}

/// The text of a board shot at on `guessed`, with ship cells `ships` of which
/// `hits` were hit; ships are shown only when `reveal`.
pub fn render(guessed: u128, hits: u128, ships: u128, reveal: bool) -> (out: String)
    ensures
        out@ == board_text(guessed, hits, ships, reveal),
{
    let mut out = <String as StringExecFns>::from_str("   ");
    proof {
        reveal_strlit("   ");
    }
    assert(out@ =~= header_text(0));
    let mut col: usize = 1;
    while col <= GRID_SIZE
        invariant
            1 <= col <= GRID_SIZE + 1,
            out@ == header_text((col - 1) as nat),
        decreases GRID_SIZE + 1 - col,
    {
        push_char(&mut out, ' ');
        push_decimal(&mut out, col);
        push_char(&mut out, ' ');
        assert(out@ =~= header_text(col as nat));
        col = col + 1;
    }
    push_char(&mut out, '\n');
    let ghost head = out@;
    assert(head =~= header_text(GRID_SIZE as nat) + seq!['\n']);
    let mut row: usize = 0;
    while row < GRID_SIZE
        invariant
            row <= GRID_SIZE,
            head == header_text(GRID_SIZE as nat) + seq!['\n'],
            out@ == head + rows_text(guessed, hits, ships, reveal, row as nat),
        decreases GRID_SIZE - row,
    {
        let ghost before = out@;
        push_char(&mut out, letter(row));
        push_char(&mut out, ' ');
        let mut col: usize = 0;
        while col < GRID_SIZE
            invariant
                row < GRID_SIZE,
                col <= GRID_SIZE,
                out@ == before + seq![row_letter(row as int), ' '] + row_cells(
                    guessed,
                    hits,
                    ships,
                    reveal,
                    row as int,
                    col as nat,
                ),
            decreases GRID_SIZE - col,
        {
            assert(row * 10 + col < 100) by (nonlinear_arith)
                requires
                    row < 10,
                    col < 10,
            ;
            let i = row * GRID_SIZE + col;
            let icon = if contains(guessed, i) {
                if contains(hits, i) {
                    Cell::Hit.icon()
                } else {
                    Cell::Miss.icon()
                }
            } else if reveal && contains(ships, i) {
                Cell::Ship.icon()
            } else {
                Cell::Empty.icon()
            };
            push_char(&mut out, ' ');
            push_char(&mut out, icon);
            push_char(&mut out, ' ');
            assert(out@ =~= before + seq![row_letter(row as int), ' '] + row_cells(
                guessed,
                hits,
                ships,
                reveal,
                row as int,
                (col + 1) as nat,
            ));
            col = col + 1;
        }
        push_char(&mut out, '\n');
        assert(out@ =~= head + rows_text(guessed, hits, ships, reveal, (row + 1) as nat));
        row = row + 1;
    }
    out
}

/// The statuses of the ships, separated by single spaces.
pub fn render_statuses(ships: &Vec<Ship>) -> (out: String)
    ensures
        out@ == statuses_text(ships@),
{
    let mut out = <String as StringExecFns>::from_str("");
    proof {
        reveal_strlit("");
    }
    assert(out@ =~= statuses_text(ships@.take(0)));
    let mut i: usize = 0;
    while i < ships.len()
        invariant
            i <= ships@.len(),
            out@ == statuses_text(ships@.take(i as int)),
        decreases ships@.len() - i,
    {
        let s = ships[i];
        if i > 0 {
            push_char(&mut out, ' ');
        }
        out.append(s.name());
        push_char(&mut out, '(');
        push_decimal(&mut out, s.length());
        push_char(&mut out, ')');
        push_char(&mut out, ':');
        push_char(&mut out, if s.is_sunk() { '\u{2612}' } else { '\u{2610}' });
        proof {
            let t = ships@.take(i + 1);
            assert(t.drop_last() =~= ships@.take(i as int));
            assert(t.last() == s);
            if i == 0 {
                assert(t.len() == 1 && t[0] == s);
            }
            assert(out@ =~= statuses_text(t));
        }
        i = i + 1;
    }
    assert(ships@.take(i as int) =~= ships@);
    out
}

/// A snapshot of a board for showing to a player.
pub struct BoardState {
    /// Side of the grid.
    pub grid_size: usize,
    /// The board's text.
    pub board: String,
    /// The ships' status line.
    pub ships: String,
    /// Where the player stands.
    pub state: PlayerState,
}

impl Board {
    /// The text of the board; ship cells are shown only when `reveal_ships`.
    pub fn format_board(&self, reveal_ships: bool) -> (out: String)
        ensures
            out@ == board_text(
                self.spec_guessed(),
                hits_union(select(self.spec_ships(), true, true)),
                if reveal_ships {
                    coords_union(select(self.spec_ships(), true, true))
                } else {
                    0u128
                },
                reveal_ships,
            ),
    {
        let ships = if reveal_ships {
            self.fleet_coords()
        } else {
            0
        };
        let hits = self.hit_coords(true, true);
        render(self.guessed(), hits, ships, reveal_ships)
    }

    /// The status line of the fleet.
    pub fn format_ship_status(&self) -> (out: String)
        ensures
            out@ == statuses_text(self.spec_ships()),
    {
        render_statuses(&self.all_ships())
    }
}

impl BoardState {
    /// A snapshot of `board`; ship cells are shown only when `reveal_ships`.
    pub fn new(board: &Board, reveal_ships: bool) -> (s: BoardState)
        requires
            board.wf(),
        ensures
            s.grid_size == GRID_SIZE,
            s.board@ == board_text(
                board.spec_guessed(),
                hits_union(select(board.spec_ships(), true, true)),
                if reveal_ships {
                    coords_union(select(board.spec_ships(), true, true))
                } else {
                    0u128
                },
                reveal_ships,
            ),
            s.ships@ == statuses_text(board.spec_ships()),
    {
        BoardState {
            grid_size: board.grid_size(),
            board: board.format_board(reveal_ships),
            ships: board.format_ship_status(),
            state: board.player_state(),
        }
    }
}

/// A read-only view of a square board.
pub trait BoardView {
    /// Side of the board.
    fn grid_size(&self) -> usize;
}

impl BoardView for BoardState {
    fn grid_size(&self) -> usize {
        self.grid_size
    }
}

} // verus!
