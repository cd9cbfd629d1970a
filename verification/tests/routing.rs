use sheeld::identity::{PeerAddress, PeerIdentity};
use sheeld::keyspace::RoutingKey;
use sheeld::routing::{
    AddOutcome, RoutingEntry, RoutingTable, DEFAULT_BUCKET_CAPACITY, MAX_BUCKET_CAPACITY,
};

fn zero() -> RoutingKey {
    RoutingKey::from_bytes([0u8; 32])
}

/// The key at distance `d` from the all-zero key, for `d` below 2^16.
fn key(d: u16) -> RoutingKey {
    let mut bytes = [0u8; 32];
    bytes[30] = (d >> 8) as u8;
    bytes[31] = (d & 0xff) as u8;
    RoutingKey::from_bytes(bytes)
}

fn entry(d: u16, last_seen: u64) -> RoutingEntry {
    RoutingEntry {
        key: key(d),
        identity: PeerIdentity::from_bytes(vec![(d >> 8) as u8, (d & 0xff) as u8]),
        address: PeerAddress::from_bytes(vec![4, 10, 0, (d >> 8) as u8, (d & 0xff) as u8]),
        last_seen,
    }
}

fn distances(entries: &[RoutingEntry]) -> Vec<u16> {
    entries
        .iter()
        .map(|e| {
            let b = e.key.to_bytes();
            ((b[30] as u16) << 8) | b[31] as u16
        })
        .collect()
}

#[test]
fn capacity_constants() {
    assert_eq!(DEFAULT_BUCKET_CAPACITY, 20);
    assert!(DEFAULT_BUCKET_CAPACITY <= MAX_BUCKET_CAPACITY);
}

#[test]
fn no_table_is_made_with_a_capacity_out_of_range() {
    assert!(RoutingTable::new(zero(), 0).is_none());
    assert!(RoutingTable::new(zero(), MAX_BUCKET_CAPACITY + 1).is_none());
    assert!(RoutingTable::new(zero(), 1).is_some());
    assert!(RoutingTable::new(zero(), MAX_BUCKET_CAPACITY).is_some());
}

#[test]
fn new_table_is_empty() {
    let table = RoutingTable::new(zero(), 20).unwrap();
    assert_eq!(table.len(), 0);
    assert_eq!(table.capacity(), 20);
    assert_eq!(table.local(), zero());
    for b in 0..256 {
        assert_eq!(table.bucket_len(b), 0);
    }
    assert_eq!(table.bucket_len(256), 0);
    assert_eq!(table.bucket_len(usize::MAX), 0);
    assert!(table.closest(&zero(), 5).is_empty());
    assert!(table.entries().is_empty());
}

#[test]
fn entry_joins_the_bucket_of_its_distance() {
    let mut table = RoutingTable::new(zero(), 20).unwrap();
    assert_eq!(table.insert(entry(1, 10)), AddOutcome::Added);
    assert_eq!(table.insert(entry(2, 10)), AddOutcome::Added);
    assert_eq!(table.insert(entry(3, 10)), AddOutcome::Added);
    assert_eq!(table.insert(entry(200, 10)), AddOutcome::Added);
    assert_eq!(table.insert(entry(256, 10)), AddOutcome::Added);
    assert_eq!(table.bucket_len(0), 1);
    assert_eq!(table.bucket_len(1), 2);
    assert_eq!(table.bucket_len(7), 1);
    assert_eq!(table.bucket_len(8), 1);
    assert_eq!(table.len(), 5);
}

#[test]
fn own_key_is_not_held() {
    let mut table = RoutingTable::new(key(5), 20).unwrap();
    assert_eq!(table.insert(entry(5, 10)), AddOutcome::Local);
    assert_eq!(table.len(), 0);
}

#[test]
fn known_key_is_refreshed() {
    let mut table = RoutingTable::new(zero(), 20).unwrap();
    table.insert(entry(9, 10));
    let mut again = entry(9, 30);
    again.address = PeerAddress::from_bytes(vec![1, 2, 3]);
    assert_eq!(table.insert(again), AddOutcome::Refreshed);
    assert_eq!(table.len(), 1);
    let held = table.get(&key(9)).unwrap();
    assert_eq!(held.last_seen, 30);
    assert_eq!(held.address, PeerAddress::from_bytes(vec![1, 2, 3]));
}

#[test]
fn refresh_never_takes_the_time_back() {
    let mut table = RoutingTable::new(zero(), 20).unwrap();
    table.insert(entry(9, 30));
    assert_eq!(table.insert(entry(9, 10)), AddOutcome::Refreshed);
    assert_eq!(table.get(&key(9)).unwrap().last_seen, 30);
}

#[test]
fn bucket_never_exceeds_its_capacity() {
    let mut table = RoutingTable::new(zero(), 3).unwrap();
    for (i, d) in (128u16..256).enumerate() {
        table.insert(entry(d, i as u64));
        assert!(table.bucket_len(7) <= 3);
    }
    assert_eq!(table.bucket_len(7), 3);
    assert_eq!(table.len(), 3);
    for d in (128u16..256).rev() {
        table.insert(entry(d, 0));
        assert!(table.bucket_len(7) <= 3);
    }
    assert_eq!(table.len(), 3);
}

#[test]
fn full_bucket_gives_up_its_oldest_to_a_later_sighting() {
    let mut table = RoutingTable::new(zero(), 2).unwrap();
    table.insert(entry(130, 10));
    table.insert(entry(131, 20));
    // Farther than the oldest, but seen later.
    assert_eq!(table.insert(entry(200, 15)), AddOutcome::Replaced(entry(130, 10)));
    assert_eq!(table.bucket_len(7), 2);
    assert!(table.get(&key(130)).is_none());
    assert!(table.get(&key(131)).is_some());
    assert!(table.get(&key(200)).is_some());
}

#[test]
fn full_bucket_gives_up_its_oldest_to_a_closer_key() {
    let mut table = RoutingTable::new(zero(), 2).unwrap();
    table.insert(entry(200, 10));
    table.insert(entry(201, 20));
    // Seen earlier than the oldest, but closer to the node.
    assert_eq!(table.insert(entry(129, 5)), AddOutcome::Replaced(entry(200, 10)));
    assert!(table.get(&key(129)).is_some());
    assert!(table.get(&key(201)).is_some());
}

#[test]
fn full_bucket_keeps_what_it_has_otherwise() {
    let mut table = RoutingTable::new(zero(), 2).unwrap();
    table.insert(entry(130, 10));
    table.insert(entry(131, 20));
    // Neither seen later than the oldest nor closer.
    assert_eq!(table.insert(entry(200, 10)), AddOutcome::Full);
    assert_eq!(table.insert(entry(200, 5)), AddOutcome::Full);
    assert!(table.get(&key(200)).is_none());
    assert!(table.get(&key(130)).is_some());
    assert_eq!(table.bucket_len(7), 2);
}

#[test]
fn oldest_is_the_first_among_the_earliest() {
    let mut table = RoutingTable::new(zero(), 3).unwrap();
    table.insert(entry(140, 7));
    table.insert(entry(141, 5));
    table.insert(entry(142, 5));
    assert_eq!(table.insert(entry(250, 6)), AddOutcome::Replaced(entry(141, 5)));
    // Now 142 (time 5) is the oldest.
    assert_eq!(table.insert(entry(251, 6)), AddOutcome::Replaced(entry(142, 5)));
}

#[test]
fn full_bucket_does_not_hinder_another() {
    let mut table = RoutingTable::new(zero(), 1).unwrap();
    assert_eq!(table.insert(entry(130, 10)), AddOutcome::Added);
    assert_eq!(table.insert(entry(70, 1)), AddOutcome::Added);
    assert_eq!(table.insert(entry(2, 1)), AddOutcome::Added);
    assert_eq!(table.len(), 3);
}

#[test]
fn remove_takes_the_entry_out() {
    let mut table = RoutingTable::new(zero(), 20).unwrap();
    table.insert(entry(9, 10));
    table.insert(entry(10, 11));
    assert_eq!(table.remove(&key(9)), Some(entry(9, 10)));
    assert_eq!(table.remove(&key(9)), None);
    assert_eq!(table.remove(&zero()), None);
    assert_eq!(table.len(), 1);
    assert!(table.get(&key(10)).is_some());
}

#[test]
fn closest_is_sorted_bounded_and_without_duplicates() {
    let mut table = RoutingTable::new(zero(), 20).unwrap();
    for d in [300u16, 5, 129, 2, 77, 1000, 6, 130] {
        table.insert(entry(d, 1));
    }
    table.insert(entry(5, 2));
    assert_eq!(distances(&table.closest(&zero(), 3)), vec![2, 5, 6]);
    assert_eq!(distances(&table.closest(&zero(), 8)), vec![2, 5, 6, 77, 129, 130, 300, 1000]);
    assert_eq!(distances(&table.closest(&zero(), 100)), vec![2, 5, 6, 77, 129, 130, 300, 1000]);
    assert!(table.closest(&zero(), 0).is_empty());
}

#[test]
fn closest_measures_from_the_target() {
    let mut table = RoutingTable::new(zero(), 20).unwrap();
    for d in [1u16, 2, 4, 8, 16] {
        table.insert(entry(d, 1));
    }
    // From 9: 8 is at 1, 1 at 8, 2 at 11, 4 at 13, 16 at 25.
    assert_eq!(distances(&table.closest(&key(9), 5)), vec![8, 1, 2, 4, 16]);
    // From 16 itself: 16 is at 0.
    assert_eq!(distances(&table.closest(&key(16), 2)), vec![16, 1]);
}

#[test]
fn entries_lists_bucket_after_bucket() {
    let mut table = RoutingTable::new(zero(), 20).unwrap();
    for d in [300u16, 5, 2, 4] {
        table.insert(entry(d, 1));
    }
    assert_eq!(distances(&table.entries()), vec![2, 5, 4, 300]);
}

#[test]
fn add_address_files_a_peer_under_the_hash_of_its_identity() {
    let me = PeerIdentity::from_bytes(vec![]);
    let mut table = RoutingTable::new(RoutingKey::of(&me), 20).unwrap();
    let peer = PeerIdentity::from_bytes(vec![b'a', b'b', b'c']);
    let addr = PeerAddress::from_bytes(vec![4, 1, 2, 3, 4]);
    assert_eq!(table.add_address(peer.clone(), addr.clone(), 7), AddOutcome::Added);
    // sha256("") starts with 0xe3 and sha256("abc") with 0xba: they differ in
    // the first bit after the leading one, bit 254.
    assert_eq!(table.bucket_len(254), 1);
    let held = table.get(&RoutingKey::of(&peer)).unwrap();
    assert_eq!(held, &RoutingEntry::new(peer.clone(), addr.clone(), 7));
    assert_eq!(table.add_address(peer.clone(), addr.clone(), 9), AddOutcome::Refreshed);
    assert_eq!(table.add_address(me, addr, 9), AddOutcome::Local);
    assert_eq!(table.len(), 1);
}

#[test]
fn closest_peers_names_no_identity_twice() {
    let me = PeerIdentity::from_bytes(vec![0]);
    let mut table = RoutingTable::new(RoutingKey::of(&me), 20).unwrap();
    for n in 1u8..=30 {
        let peer = PeerIdentity::from_bytes(vec![n % 10 + 1]);
        table.add_address(peer, PeerAddress::from_bytes(vec![n]), n as u64);
    }
    assert_eq!(table.len(), 10);
    let target = PeerIdentity::from_bytes(vec![3]);
    let near = table.closest_peers(&target, 6);
    assert_eq!(near.len(), 6);
    assert_eq!(near[0].identity, target);
    let target_key = RoutingKey::of(&target);
    for pair in near.windows(2) {
        assert!(!target_key.closer(&pair[1].key, &pair[0].key));
        assert_ne!(pair[0].identity, pair[1].identity);
    }
    for i in 0..near.len() {
        for j in 0..i {
            assert_ne!(near[i].identity, near[j].identity);
        }
    }
    assert_eq!(table.closest_peers(&target, 50).len(), 10);
}

#[test]
fn entry_copies() {
    let e = entry(77, 3);
    assert_eq!(e.clone(), e);
}
