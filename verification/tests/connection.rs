use sheeld::connection::{ConnectionState, ConnectionStatus, ConnectionTable};
use sheeld::identity::{PeerAddress, PeerIdentity};

fn id(n: u8) -> PeerIdentity {
    PeerIdentity::from_bytes(vec![n])
}

fn addr(n: u8) -> PeerAddress {
    PeerAddress::from_bytes(vec![4, 10, 0, 0, n])
}

#[test]
fn open_creates_a_connecting_state() {
    let mut table = ConnectionTable::new();
    assert!(table.open(id(1), addr(1), 5));
    assert_eq!(table.len(), 1);
    assert_eq!(
        table.get(&id(1)),
        Some(&ConnectionState {
            peer: id(1),
            address: addr(1),
            established_at: 5,
            status: ConnectionStatus::Connecting,
        })
    );
    assert!(!table.is_established(&id(1)));
}

#[test]
fn open_twice_keeps_the_first() {
    let mut table = ConnectionTable::new();
    assert!(table.open(id(1), addr(1), 5));
    assert!(!table.open(id(1), addr(2), 6));
    assert_eq!(table.len(), 1);
    assert_eq!(table.get(&id(1)).unwrap().address, addr(1));
    assert_eq!(table.get(&id(1)).unwrap().established_at, 5);
}

#[test]
fn establish_completes_a_connecting_state() {
    let mut table = ConnectionTable::new();
    table.open(id(1), addr(1), 5);
    assert!(table.establish(id(1), addr(2), 9));
    assert_eq!(
        table.get(&id(1)),
        Some(&ConnectionState {
            peer: id(1),
            address: addr(2),
            established_at: 9,
            status: ConnectionStatus::Established,
        })
    );
    assert!(table.is_established(&id(1)));
    assert_eq!(table.len(), 1);
}

#[test]
fn establish_creates_where_nothing_was_opened() {
    let mut table = ConnectionTable::new();
    assert!(table.establish(id(1), addr(1), 9));
    assert!(table.is_established(&id(1)));
    assert_eq!(table.get(&id(1)).unwrap().established_at, 9);
}

#[test]
fn establish_twice_keeps_the_first() {
    let mut table = ConnectionTable::new();
    assert!(table.establish(id(1), addr(1), 9));
    assert!(!table.establish(id(1), addr(2), 12));
    assert_eq!(table.get(&id(1)).unwrap().address, addr(1));
    assert_eq!(table.get(&id(1)).unwrap().established_at, 9);
    assert_eq!(table.len(), 1);
}

#[test]
fn close_removes_and_marks_closed() {
    let mut table = ConnectionTable::new();
    table.establish(id(1), addr(1), 9);
    table.establish(id(2), addr(2), 10);
    let gone = table.close(&id(1)).expect("the state");
    assert_eq!(
        gone,
        ConnectionState {
            peer: id(1),
            address: addr(1),
            established_at: 9,
            status: ConnectionStatus::Closed,
        }
    );
    assert_eq!(table.len(), 1);
    assert!(table.get(&id(1)).is_none());
    assert!(!table.is_established(&id(1)));
    assert!(table.is_established(&id(2)));
    assert!(table.close(&id(1)).is_none());
}

#[test]
fn abandon_removes_only_a_connecting_state() {
    let mut table = ConnectionTable::new();
    table.open(id(1), addr(1), 1);
    table.establish(id(2), addr(2), 2);
    assert!(table.abandon(&id(1)));
    assert!(!table.abandon(&id(1)));
    assert!(!table.abandon(&id(2)));
    assert!(!table.abandon(&id(3)));
    assert_eq!(table.len(), 1);
    assert!(table.is_established(&id(2)));
}

#[test]
fn connected_peers_lists_the_established_in_order() {
    let mut table = ConnectionTable::new();
    table.establish(id(3), addr(3), 1);
    table.open(id(1), addr(1), 2);
    table.establish(id(2), addr(2), 3);
    assert_eq!(table.connected_peers(), vec![id(3), id(2)]);
    table.establish(id(1), addr(1), 4);
    assert_eq!(table.connected_peers(), vec![id(3), id(1), id(2)]);
    table.close(&id(3));
    assert_eq!(table.connected_peers(), vec![id(1), id(2)]);
    assert!(ConnectionTable::new().connected_peers().is_empty());
}

#[test]
fn state_copies() {
    let state = ConnectionState {
        peer: id(1),
        address: addr(1),
        established_at: 3,
        status: ConnectionStatus::Established,
    };
    assert_eq!(state.clone(), state);
}
