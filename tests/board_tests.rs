use battleship::board::Board;
use battleship::engine::AIPlayer;
use battleship::probability::calc_pdf_and_guess;
use battleship::probability::sample_pdf;
use battleship::input::parse_move;
use battleship::engine::{play_round, Engine, GameMode, RoundEnd};
use battleship::constants::{Cell, GameplayError, GuessError, GuessResult, PlayerState};
use battleship::fleet::Fleet;
use battleship::ship::Ship;

fn bit(r: usize, c: usize) -> u128 {
    1u128 << (r * 10 + c)
}

#[test]
fn test_place() {
    let mut board = Board::new();
    assert_eq!(board.place_ship("Carrier", (0, 0), true), Ok(()));
    let ships = board.get_ships(true, true);
    assert_eq!(ships[0].coords(), 0b11111);
    assert!(ships[0].is_placed());
}

#[test]
fn new_board_is_in_setup() {
    let board = Board::new();
    assert_eq!(board.player_state(), PlayerState::Setup);
    assert_eq!(board.guessed(), 0);
    assert_eq!(board.grid_size(), 10);
    assert_eq!(board.unguessed_iter().len(), 100);
}

#[test]
fn placement_errors() {
    let mut board = Board::new();
    assert_eq!(board.place_ship("Carrier", (0, 6), true), Err(GameplayError::InvalidPlacement));
    assert_eq!(board.place_ship("Carrier", (6, 0), false), Err(GameplayError::InvalidPlacement));
    assert_eq!(board.place_ship("Carrier", (10, 0), true), Err(GameplayError::InvalidPlacement));
    assert_eq!(board.place_ship("Tugboat", (0, 0), true), Err(GameplayError::ShipNotFound));
    assert_eq!(board.place_ship("Carrier", (0, 5), true), Ok(()));
    assert_eq!(board.place_ship("Battleship", (0, 6), false), Err(GameplayError::InvalidPlacement));
    assert_eq!(board.place_ship("Battleship", (1, 6), false), Ok(()));
}

#[test]
fn calc_placement_cells() {
    let board = Board::new();
    assert_eq!(board.calc_placement((2, 3), 3, true), vec![(2, 3), (2, 4), (2, 5)]);
    assert_eq!(board.calc_placement((2, 3), 2, false), vec![(2, 3), (3, 3)]);
    assert!(board.valid_placement(&vec![(2, 3), (3, 3)], 0));
    assert!(!board.valid_placement(&vec![(9, 9), (10, 9)], 0));
    assert!(!board.valid_placement(&vec![(2, 3)], bit(2, 3)));
}

fn placed_board() -> Board {
    let mut board = Board::new();
    board.place_ship("Carrier", (0, 0), true).unwrap();
    board.place_ship("Battleship", (1, 0), true).unwrap();
    board.place_ship("Cruiser", (2, 0), true).unwrap();
    board.place_ship("Submarine", (3, 0), true).unwrap();
    board.place_ship("Destroyer", (4, 0), true).unwrap();
    board
}

#[test]
fn guesses_hit_miss_and_sink() {
    let mut board = placed_board();
    assert_eq!(board.player_state(), PlayerState::Alive);
    assert_eq!(board.guess((0, 0)), Ok(GuessResult::Hit));
    assert_eq!(board.guess((0, 0)), Err(GuessError::AlreadyGuessed));
    assert_eq!(board.guess((9, 9)), Ok(GuessResult::Miss));
    assert_eq!(board.guess((10, 0)), Err(GuessError::InvalidTarget));
    assert_eq!(board.guess((4, 0)), Ok(GuessResult::Hit));
    assert_eq!(board.guess((4, 1)), Ok(GuessResult::Sunk("Destroyer")));
    assert_eq!(board.hit_coords(true, true), bit(0, 0) | bit(4, 0) | bit(4, 1));
    assert_eq!(board.hit_coords(false, true), bit(4, 0) | bit(4, 1));
    assert_eq!(board.hit_coords(true, false), bit(0, 0));
    assert_eq!(board.miss_coords(), bit(9, 9));
    assert_eq!(board.hits_remaining(), 17 - 3);
    assert_eq!(board.ship_lengths_remaining(), vec![5, 4, 3, 3]);
    assert_eq!(board.unguessed() & board.guessed(), 0);
    assert_eq!(board.unguessed_iter().len(), 96);
    let (hits, misses) = board.share();
    assert_eq!(hits, board.hit_coords(true, true));
    assert_eq!(misses, bit(9, 9));
}

#[test]
fn sinking_everything_ends_the_game() {
    let mut board = placed_board();
    for (row, len) in [(0usize, 5usize), (1, 4), (2, 3), (3, 3), (4, 2)] {
        for col in 0..len {
            board.guess((row, col)).unwrap();
        }
    }
    assert_eq!(board.player_state(), PlayerState::Dead);
    assert_eq!(board.hits_remaining(), 0);
    let statuses = board.ship_statuses();
    assert_eq!(statuses.len(), 5);
    assert!(statuses.iter().all(|s| s.2));
}

#[test]
fn random_fleet_is_placed() {
    let mut board = Board::new();
    assert_eq!(board.randomly_place_fleet(), Ok(()));
    assert_eq!(board.player_state(), PlayerState::Alive);
    let cells = board.get_ships(true, true).iter().fold(0u128, |m, s| m | s.coords());
    assert_eq!(cells.count_ones(), 17);
}

#[test]
fn random_guesses_cover_the_board() {
    let mut board = placed_board();
    for _ in 0..100 {
        assert!(board.random_guess().is_ok());
    }
    assert_eq!(board.random_guess(), Err(GuessError::NoValidCoordinates));
    assert_eq!(board.player_state(), PlayerState::Dead);
}

#[test]
fn ship_lifecycle() {
    let mut ship = Ship::new("Destroyer", 2);
    assert_eq!(ship.length(), 2);
    assert!(!ship.is_placed());
    assert_eq!(ship.place(bit(0, 0)), Err(GameplayError::InvalidPlacement));
    assert_eq!(ship.place(bit(0, 0) | bit(0, 1)), Ok(()));
    assert_eq!(ship.hits_remaining(), 2);
    assert_eq!(ship.guess((0, 0)), Ok(GuessResult::Hit));
    assert_eq!(ship.guess((0, 0)), Err(GuessError::AlreadyGuessed));
    assert_eq!(ship.guess((5, 5)), Ok(GuessResult::Miss));
    assert_eq!(ship.guess((0, 1)), Ok(GuessResult::Sunk("Destroyer")));
    assert!(ship.is_sunk());
    assert_eq!(ship.hits(), bit(0, 0) | bit(0, 1));
    assert_eq!(ship.name(), "Destroyer");
}

#[test]
fn fleet_queries() {
    let mut fleet = Fleet::new();
    assert_eq!(fleet.n_ships(true, true), 5);
    assert_eq!(fleet.total_hits(), 17);
    assert_eq!(fleet.unplaced_ships().len(), 5);
    assert!(fleet.get_ship("Cruiser").is_ok());
    assert!(matches!(fleet.get_ship("Raft"), Err(GameplayError::ShipNotFound)));
    assert_eq!(fleet.place_ship("Destroyer", bit(5, 5) | bit(5, 6)), Ok(()));
    assert_eq!(fleet.place_ship("Destroyer", bit(7, 7)), Err(GameplayError::InvalidPlacement));
    assert_eq!(fleet.unplaced_ships().len(), 4);
    assert_eq!(fleet.ship_coords(true, true), bit(5, 5) | bit(5, 6));
    assert_eq!(fleet.guess((5, 5)), Ok(GuessResult::Hit));
    assert_eq!(fleet.guess((5, 6)), Ok(GuessResult::Sunk("Destroyer")));
    assert_eq!(fleet.guess((5, 6)), Ok(GuessResult::Miss));
    assert_eq!(fleet.n_ships(false, true), 1);
    assert_eq!(fleet.n_ship_hits(true, true), 2);
    assert_eq!(fleet.n_ship_coords(true, false), 15);
    assert_eq!(fleet.hits_remaining(), 15);
    assert_eq!(
        fleet.get_ship_names_and_length(false, true),
        vec![("Destroyer", 2)]
    );
    assert_eq!(fleet.ship_statuses()[4], ("Destroyer", 2, true));
}

#[test]
fn cell_icons() {
    assert_eq!(Cell::Empty.icon(), '.');
    assert_eq!(Cell::Ship.icon(), '\u{25a0}');
    assert_eq!(Cell::Hit.icon(), 'X');
    assert_eq!(Cell::Miss.icon(), 'O');
}

#[test]
fn ai_vs_ai_game_completes() {
    let mut board1 = Board::new();
    let mut board2 = Board::new();
    board1.randomly_place_fleet().unwrap();
    board2.randomly_place_fleet().unwrap();

    let ai1 = AIPlayer;
    let ai2 = AIPlayer;

    let mut turn = true;
    let mut steps = 0;
    while board1.player_state() == PlayerState::Alive
        && board2.player_state() == PlayerState::Alive
        && steps < 200
    {
        if turn {
            let coord = ai1.next_move(&board2);
            board2.guess(coord).unwrap();
        } else {
            let coord = ai2.next_move(&board1);
            board1.guess(coord).unwrap();
        }
        turn = !turn;
        steps += 1;
    }

    assert!(
        board1.player_state() == PlayerState::Dead
            || board2.player_state() == PlayerState::Dead
    );
}

#[test]
fn heuristic_picks_unshot_cells() {
    let mut board = placed_board();
    for _ in 0..60 {
        if board.player_state() == PlayerState::Dead {
            break;
        }
        let (r, c) = calc_pdf_and_guess(&board);
        assert!(r < 10 && c < 10);
        assert_eq!(board.guessed() & bit(r, c), 0);
        board.guess((r, c)).unwrap();
    }
}

#[test]
fn sample_pdf_follows_running_sums() {
    let mut w = vec![0u64; 100];
    w[3] = 2;
    w[50] = 5;
    assert_eq!(sample_pdf(&w, 0), 3);
    assert_eq!(sample_pdf(&w, 1), 3);
    assert_eq!(sample_pdf(&w, 2), 50);
    assert_eq!(sample_pdf(&w, 6), 50);
}

#[test]
fn educated_guess_takes_a_new_cell() {
    let mut board = placed_board();
    assert!(board.educated_guess().is_ok());
    assert_eq!(board.guessed().count_ones(), 1);
}

#[test]
fn guess_result_text() {
    assert_eq!(GuessResult::Miss.describe(), "Miss");
    assert_eq!(GuessResult::Hit.describe(), "Hit");
    assert_eq!(GuessResult::Sunk("Cruiser").describe(), "The Cruiser was sunk!");
}

#[test]
fn board_text_and_status_line() {
    let mut board = placed_board();
    board.guess((0, 0)).unwrap();
    board.guess((9, 9)).unwrap();
    let shown = board.format_board(true);
    let lines: Vec<&str> = shown.lines().collect();
    assert_eq!(lines.len(), 11);
    assert_eq!(lines[0], "    1  2  3  4  5  6  7  8  9  10 ");
    assert_eq!(lines[1], "A  X  \u{25a0}  \u{25a0}  \u{25a0}  \u{25a0}  .  .  .  .  . ");
    assert_eq!(lines[10], "J  .  .  .  .  .  .  .  .  .  O ");
    let hidden = board.format_board(false);
    assert_eq!(hidden.lines().nth(1).unwrap(), "A  X  .  .  .  .  .  .  .  .  . ");
    assert_eq!(
        board.format_ship_status(),
        "Carrier(5):\u{2610} Battleship(4):\u{2610} Cruiser(3):\u{2610} Submarine(3):\u{2610} Destroyer(2):\u{2610}"
    );
    let state = battleship::text::BoardState::new(&board, false);
    assert_eq!(state.board, hidden);
    assert_eq!(state.grid_size, 10);
    assert_eq!(state.state, PlayerState::Alive);
}

#[test]
fn typed_moves() {
    assert_eq!(parse_move("A5"), (0, 4));
    assert_eq!(parse_move("  b10 \n"), (1, 9));
    assert_eq!(parse_move("J+1"), (9, 0));
    assert_eq!(parse_move("K1"), (0, 0));
    assert_eq!(parse_move("A0"), (0, 0));
    assert_eq!(parse_move("A11"), (0, 0));
    assert_eq!(parse_move("Cx"), (2, 0));
    assert_eq!(parse_move("C99999999999999999999999"), (2, 0));
    assert_eq!(parse_move("C"), (0, 0));
    assert_eq!(parse_move("!5"), (0, 0));
}

#[test]
fn engine_turns() {
    let mut engine = Engine::new();
    assert_eq!(engine.setup(), Ok(()));
    let (r, done) = engine.play(true, (10, 10));
    assert_eq!(r, GuessResult::Miss);
    assert!(!done);
    let (own, other) = engine.states(true);
    assert!(own.board.contains('\u{25a0}'));
    assert!(!other.board.contains('\u{25a0}'));

    let mut mine = placed_board();
    let mut theirs = placed_board();
    let (first, second, end) = play_round(&mut mine, &mut theirs, GameMode::Multiplayer, (0, 0));
    assert_eq!(first, Ok(GuessResult::Hit));
    assert!(second.is_none());
    assert_eq!(end, RoundEnd::Continue);
    let (_, second, _) = play_round(&mut mine, &mut theirs, GameMode::SinglePlayer, (0, 1));
    assert!(second.is_some());
    assert_eq!(mine.guessed().count_ones(), 1);
}
