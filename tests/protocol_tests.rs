use battleship::duel::{GameState, Message, Orientation, PlayerId, ShipType};
use battleship::input::{parse_move_with_default, place_from_event, CliInterface, InputEvent};
use battleship::transport::ReliableTransport;

#[test]
fn transport_builders() {
    let t = ReliableTransport::new(7u8).with_retries(3).with_timeout(50);
    assert_eq!(t.inner, 7);
    assert_eq!(t.retry_limit, 3);
    assert_eq!(t.timeout_ms, 50);
    assert_eq!(t.send_seq, 0);
    assert_eq!(t.recv_ack, 0);
}

#[test]
fn transport_sequencing() {
    let mut t = ReliableTransport::new(());
    let e = t.envelope(Message::Handshake { player: PlayerId::One });
    assert_eq!(e.seq, 0);
    assert_eq!(e.ack, Some(0));
    assert!(t.on_ack(None));
    assert_eq!(t.send_seq, 1);
    assert!(!t.on_ack(None));
    assert!(t.on_ack(Some(4)));
    assert_eq!(t.recv_ack, 4);
    assert_eq!(t.send_seq, 2);
    assert!(!t.on_receive(3));
    assert!(t.on_receive(9));
    assert_eq!(t.recv_ack, 9);
}

#[test]
fn console_commands() {
    let cli = CliInterface::new();
    assert_eq!(cli.parse("attack 3,4\n"), InputEvent::Attack { x: 3, y: 4 });
    assert_eq!(cli.parse("  attack +1,0 "), InputEvent::Attack { x: 1, y: 0 });
    assert_eq!(cli.parse("attack 3,4,5"), InputEvent::Unknown);
    assert_eq!(cli.parse("attack 300,4"), InputEvent::Unknown);
    assert_eq!(cli.parse("attack 3, 4"), InputEvent::Unknown);
    assert_eq!(
        cli.parse("place 1,2,v"),
        InputEvent::Place { x: 1, y: 2, orientation: Orientation::Vertical }
    );
    assert_eq!(
        cli.parse("place 1,2,H"),
        InputEvent::Place { x: 1, y: 2, orientation: Orientation::Horizontal }
    );
    assert_eq!(
        cli.parse("place 1,2,diagonal"),
        InputEvent::Place { x: 1, y: 2, orientation: Orientation::Horizontal }
    );
    assert_eq!(cli.parse("place 1,2"), InputEvent::Unknown);
    assert_eq!(cli.parse("save"), InputEvent::Save);
    assert_eq!(cli.parse(" load\t"), InputEvent::Load);
    assert_eq!(cli.parse("quit"), InputEvent::Unknown);
    assert_eq!(cli.parse(""), InputEvent::Unknown);
}

#[test]
fn defaulted_moves() {
    use_default_checks();
}

fn use_default_checks() {
    assert_eq!(parse_move_with_default("  \n", (3, 4)), (3, 4));
    assert_eq!(parse_move_with_default("B2", (3, 4)), (1, 1));
    assert_eq!(parse_move_with_default("Z", (3, 4)), (0, 0));
}

#[test]
fn placing_from_commands() {
    let mut gs = GameState::new(5, 5);
    assert!(!place_from_event(&mut gs, ShipType::Cruiser, InputEvent::Save));
    assert!(place_from_event(
        &mut gs,
        ShipType::Cruiser,
        InputEvent::Place { x: 0, y: 0, orientation: Orientation::Vertical }
    ));
    assert!(!place_from_event(
        &mut gs,
        ShipType::Destroyer,
        InputEvent::Place { x: 0, y: 1, orientation: Orientation::Horizontal }
    ));
    assert_eq!(gs.board_p1.ships.len(), 1);
}
