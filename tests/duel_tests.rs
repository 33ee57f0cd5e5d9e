use battleship::duel::{
    Board, Cell, GameState, Orientation, PlayerId, ShipLayout, ShipPlacement, ShipType,
};

#[test]
fn ship_type_lengths() {
    assert_eq!(ShipType::Carrier.len(), 5);
    assert_eq!(ShipType::Battleship.len(), 4);
    assert_eq!(ShipType::Cruiser.len(), 3);
    assert_eq!(ShipType::Submarine.len(), 3);
    assert_eq!(ShipType::Destroyer.len(), 2);
}

#[test]
fn empty_board_and_indices() {
    let b = Board::empty(5, 4);
    assert_eq!(b.cells.len(), 20);
    assert_eq!(b.grid_index(2, 3), Some(17));
    assert_eq!(b.grid_index(5, 0), None);
    assert!(b.is_unattacked(0, 0));
    assert!(!b.is_unattacked(9, 9));
    assert!(b.all_sunk());
}

#[test]
fn place_ship_errors_and_cells() {
    let mut b = Board::empty(5, 5);
    assert_eq!(b.place_ship(ShipType::Destroyer, 0, 0, Orientation::Horizontal), Ok(()));
    assert_eq!(b.cells[0], Cell::Ship(0));
    assert_eq!(b.cells[1], Cell::Ship(0));
    assert_eq!(
        b.place_ship(ShipType::Cruiser, 1, 0, Orientation::Vertical),
        Err("Overlap".to_string())
    );
    assert_eq!(
        b.place_ship(ShipType::Carrier, 1, 1, Orientation::Horizontal),
        Err("Out of bounds".to_string())
    );
    assert_eq!(b.ships.len(), 1);
    assert_eq!(b.ships[0].positions, vec![(0, 0), (1, 0)]);
}

#[test]
fn attacks_hit_miss_and_sink() {
    let mut gs = GameState::new(5, 5);
    assert_eq!(gs.turn, PlayerId::One);
    gs.board_p2.place_ship(ShipType::Destroyer, 0, 0, Orientation::Vertical).unwrap();
    gs.board_p1.place_ship(ShipType::Cruiser, 0, 0, Orientation::Horizontal).unwrap();
    assert!(gs.is_valid_attack(PlayerId::One, 0, 0));
    assert_eq!(gs.receive_attack(PlayerId::One, 3, 3), (false, None));
    assert_eq!(gs.board_p2.cells[18], Cell::Miss);
    assert!(!gs.is_valid_attack(PlayerId::One, 3, 3));
    assert_eq!(gs.receive_attack(PlayerId::One, 0, 0), (true, None));
    assert!(!gs.is_game_over());
    assert_eq!(gs.receive_attack(PlayerId::One, 0, 1), (true, Some(ShipType::Destroyer)));
    assert_eq!(gs.board_p2.cells[0], Cell::Sunk);
    assert_eq!(gs.board_p2.cells[5], Cell::Sunk);
    assert!(gs.is_game_over());
    assert_eq!(gs.receive_attack(PlayerId::Two, 9, 9), (false, None));
    assert_eq!(gs.receive_attack(PlayerId::Two, 1, 0), (true, None));
}

#[test]
fn apply_attack_passes_the_turn() {
    let mut gs = GameState::new(3, 3);
    gs.apply_attack(PlayerId::One, 1, 1);
    assert_eq!(gs.turn, PlayerId::Two);
    assert_eq!(gs.board_p2.cells[4], Cell::Miss);
    gs.apply_attack(PlayerId::Two, 0, 0);
    assert_eq!(gs.turn, PlayerId::One);
}

#[test]
fn layout_applies_in_order() {
    let mut gs = GameState::new(5, 5);
    let layout = ShipLayout {
        ships: vec![
            ShipPlacement { ship_type: ShipType::Destroyer, x: 0, y: 0, orientation: Orientation::Horizontal },
            ShipPlacement { ship_type: ShipType::Cruiser, x: 0, y: 1, orientation: Orientation::Horizontal },
        ],
    };
    assert_eq!(layout.apply(&mut gs), Ok(()));
    assert_eq!(gs.board_p1.ships.len(), 2);
    let clash = ShipLayout {
        ships: vec![ShipPlacement { ship_type: ShipType::Destroyer, x: 0, y: 0, orientation: Orientation::Vertical }],
    };
    assert_eq!(clash.apply(&mut gs), Err("Overlap".to_string()));
}
