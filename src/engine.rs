//! Turn logic of a game between two boards: the decisions of the game loop, with
//! the moves handed in and the results handed back.
use vstd::prelude::*;
use crate::board::{shot_at, Board};
use crate::constants::{GameplayError, GuessResult, PlayerState};
use crate::fleet::{select, unplaced};
use crate::mask::in_grid;
use crate::text::BoardState;

verus! {

/// Whether a board's player is out: every ship placed and none afloat.
pub open spec fn is_dead(b: Board) -> bool {
    unplaced(b.spec_ships()).len() == 0 && select(b.spec_ships(), true, false).len() == 0
}

/// Two boards: player one shoots at the second, player two at the first.
pub struct Engine {
    board1: Board,
    board2: Board,
}

impl Engine {
    pub closed spec fn spec_board1(&self) -> Board {
        self.board1
    }

    pub closed spec fn spec_board2(&self) -> Board {
        self.board2
    }

    pub open spec fn wf(&self) -> bool {
        self.spec_board1().wf() && self.spec_board2().wf()
    }

    /// Two fresh boards.
    pub fn new() -> (e: Engine)
        ensures
            e.wf(),
            e.spec_board1().spec_guessed() == 0,
            e.spec_board2().spec_guessed() == 0,
    {
        Engine { board1: Board::new(), board2: Board::new() }
    }

    /// Places both fleets at random.
    pub fn setup(&mut self) -> (r: Result<(), GameplayError>)
        requires
            old(self).wf(),
        ensures
            final(self).wf(),
    {
        match self.board1.randomly_place_fleet() {
            Ok(()) => {},
            Err(e) => return Err(e),
        }
        self.board2.randomly_place_fleet()
    }

    /// Takes the move of player one (`first`) or two at the other board: a refused
    /// shot counts as a miss. Also tells whether the other player is out.
    pub fn play(&mut self, first: bool, mv: (usize, usize)) -> (r: (GuessResult, bool))
        requires
            old(self).wf(),
        ensures
            final(self).wf(),
            first ==> final(self).spec_board1() == old(self).spec_board1() && (in_grid(
                mv.0 as int,
                mv.1 as int,
            ) ==> exists|g| #[trigger] shot_at(old(self).spec_board2(), final(self).spec_board2(), mv, g)
                && r.0 == match g {
                Ok(x) => x,
                Err(_) => GuessResult::Miss,
            }) && r.1 == is_dead(final(self).spec_board2()),
            !first ==> final(self).spec_board2() == old(self).spec_board2() && (in_grid(
                mv.0 as int,
                mv.1 as int,
            ) ==> exists|g| #[trigger] shot_at(old(self).spec_board1(), final(self).spec_board1(), mv, g)
                && r.0 == match g {
                Ok(x) => x,
                Err(_) => GuessResult::Miss,
            }) && r.1 == is_dead(final(self).spec_board1()),
    {
        if first {
            shoot(&mut self.board2, mv)
        } else {
            shoot(&mut self.board1, mv)
        }
    }

    /// What player one (`first`) or two sees: its own board with its ships, then
    /// the other board without them.
    pub fn states(&self, first: bool) -> (r: (BoardState, BoardState))
        requires
            self.wf(),
    {
        if first {
            (BoardState::new(&self.board1, true), BoardState::new(&self.board2, false))
        } else {
            (BoardState::new(&self.board2, true), BoardState::new(&self.board1, false))
        }
    }
}

/// A shot at `board`, a refused one counting as a miss, and whether the board's
/// player is then out.
fn shoot(board: &mut Board, mv: (usize, usize)) -> (r: (GuessResult, bool))
    requires
        old(board).wf(),
    ensures
        final(board).wf(),
        in_grid(mv.0 as int, mv.1 as int) ==> exists|g| #[trigger] shot_at(*old(board), *final(board), mv, g)
            && r.0 == match g {
            Ok(x) => x,
            Err(_) => GuessResult::Miss,
        },
        r.1 == is_dead(*final(board)),
{
    let g = board.guess(mv);
    proof {
        if in_grid(mv.0 as int, mv.1 as int) {
            assert(shot_at(*old(board), *board, mv, g));
        }
    }
    let res = match g {
        Ok(x) => x,
        Err(_) => GuessResult::Miss,
    };
    let dead = board.player_state() == PlayerState::Dead;
    (res, dead)
}

/// Whether the computer plays the other side.
#[derive(Clone, Copy, Debug, PartialEq, Eq, Structural)]
pub enum GameMode {
    SinglePlayer,
    Multiplayer,
}

/// How a round of the game loop ended.
#[derive(Clone, Copy, Debug, PartialEq, Eq, Structural)]
pub enum RoundEnd {
    /// The game goes on.
    Continue,
    /// The player sank the opponent's fleet.
    PlayerWon,
    /// The computer sank the player's fleet.
    OpponentWon,
}

/// One round of the game loop: the player's shot at the opponent's board, then,
/// against the computer, its shot at the player's board. Hands back what each shot
/// reported and how the round ended.
pub fn play_round(
    player_board: &mut Board,
    opponent_board: &mut Board,
    mode: GameMode,
    mv: (usize, usize),
) -> (r: (Result<GuessResult, crate::constants::GuessError>, Option<Result<GuessResult, crate::constants::GuessError>>, RoundEnd))
    requires
        old(player_board).wf(),
        old(opponent_board).wf(),
    ensures
        final(player_board).wf(),
        final(opponent_board).wf(),
        r.2 == RoundEnd::PlayerWon <==> is_dead(*final(opponent_board)),
        r.2 == RoundEnd::PlayerWon ==> r.1.is_none() && *final(player_board) == *old(player_board),
        r.2 == RoundEnd::OpponentWon ==> is_dead(*final(player_board)),
        mode == GameMode::Multiplayer ==> r.1.is_none() && *final(player_board) == *old(player_board),
        r.2 == RoundEnd::Continue ==> !is_dead(*final(opponent_board)) && !is_dead(*final(player_board)),
{
    let first = opponent_board.guess(mv);
    if opponent_board.player_state() == PlayerState::Dead {
        return (first, None, RoundEnd::PlayerWon);
    }
    let second = match mode {
        GameMode::SinglePlayer => Some(player_board.educated_guess()),
        GameMode::Multiplayer => None,
    };
    if player_board.player_state() == PlayerState::Dead {
        (first, second, RoundEnd::OpponentWon)
    } else {
        (first, second, RoundEnd::Continue)
    }
}

/// What a game needs from its user interface.
pub trait GameInterface {
    /// The next move of the player looking at `board`.
    fn get_move(&self, board: &Board) -> (usize, usize);

    /// Shows a board.
    fn display_board(&self, board: &Board);

    /// Shows a message.
    fn display_message(&self, message: &str);
}

/// A computer player that shoots where the heuristic draws.
pub struct AIPlayer;

impl AIPlayer {
    /// The next shot at `board`: a cell of the grid.
    pub fn next_move(&self, board: &Board) -> (r: (usize, usize))
        requires
            board.wf(),
        ensures
            in_grid(r.0 as int, r.1 as int),
    {
        crate::probability::calc_pdf_and_guess(board)
    }
}

} // verus!
