use sheeld::identity::PeerIdentity;
use sheeld::keyspace::{RoutingKey, KEY_BITS, KEY_LEN};

fn key_with(index: usize, byte: u8) -> RoutingKey {
    let mut bytes = [0u8; 32];
    bytes[index] = byte;
    RoutingKey::from_bytes(bytes)
}

#[test]
fn keyspace_sizes() {
    assert_eq!(KEY_LEN, 32);
    assert_eq!(KEY_BITS, 256);
}

#[test]
fn routing_key_of_empty_identity_is_sha256_of_nothing() {
    let key = RoutingKey::of(&PeerIdentity::from_bytes(vec![]));
    let expected: [u8; 32] = [
        227, 176, 196, 66, 152, 252, 28, 20, 154, 251, 244, 200, 153, 111, 185, 36, 39, 174, 65,
        228, 100, 155, 147, 76, 164, 149, 153, 27, 120, 82, 184, 85,
    ];
    assert_eq!(key.to_bytes(), expected);
}

#[test]
fn routing_key_of_abc() {
    let key = RoutingKey::of(&PeerIdentity::from_bytes(vec![b'a', b'b', b'c']));
    let expected: [u8; 32] = [
        186, 120, 22, 191, 143, 1, 207, 234, 65, 65, 64, 222, 93, 174, 34, 35, 176, 3, 97, 163,
        150, 23, 122, 156, 180, 16, 255, 97, 242, 0, 21, 173,
    ];
    assert_eq!(key.to_bytes(), expected);
}

#[test]
fn routing_key_of_a_peer_id() {
    let id = PeerIdentity::parse("QmcgpsyWgH8Y8ajJz1Cu72KnS5uo2Aa2LpzU7kinSupNKC").unwrap();
    let expected: [u8; 32] = [
        13, 223, 69, 85, 142, 20, 218, 157, 192, 134, 185, 228, 239, 36, 3, 96, 166, 82, 122, 32,
        165, 35, 58, 59, 89, 137, 158, 243, 58, 112, 225, 145,
    ];
    assert_eq!(RoutingKey::of(&id).to_bytes(), expected);
}

#[test]
fn bucket_of_own_key_is_none() {
    let local = key_with(3, 9);
    assert_eq!(local.bucket_index(&local), None);
    assert_eq!(local.bucket_index(&key_with(3, 9)), None);
}

#[test]
fn bucket_is_position_of_highest_differing_bit() {
    let local = RoutingKey::from_bytes([0u8; 32]);
    assert_eq!(local.bucket_index(&key_with(31, 1)), Some(0));
    assert_eq!(local.bucket_index(&key_with(31, 2)), Some(1));
    assert_eq!(local.bucket_index(&key_with(31, 3)), Some(1));
    assert_eq!(local.bucket_index(&key_with(31, 0x80)), Some(7));
    assert_eq!(local.bucket_index(&key_with(31, 0xff)), Some(7));
    assert_eq!(local.bucket_index(&key_with(30, 1)), Some(8));
    assert_eq!(local.bucket_index(&key_with(0, 1)), Some(248));
    assert_eq!(local.bucket_index(&key_with(0, 0x80)), Some(255));
    assert_eq!(local.bucket_index(&key_with(0, 0x40)), Some(254));
}

#[test]
fn bucket_depends_on_the_difference_only() {
    let local = key_with(0, 0xf0);
    assert_eq!(local.bucket_index(&key_with(0, 0xf1)), Some(248));
    assert_eq!(local.bucket_index(&key_with(0, 0x70)), Some(255));
    let mut bytes = [0xaau8; 32];
    let a = RoutingKey::from_bytes(bytes);
    bytes[16] = 0xab;
    let b = RoutingKey::from_bytes(bytes);
    assert_eq!(a.bucket_index(&b), Some(120));
    assert_eq!(b.bucket_index(&a), Some(120));
}

#[test]
fn closer_orders_by_xor_distance() {
    let target = RoutingKey::from_bytes([0u8; 32]);
    let near = key_with(31, 1);
    let mid = key_with(31, 2);
    let far = key_with(0, 1);
    assert!(target.closer(&near, &mid));
    assert!(target.closer(&mid, &far));
    assert!(target.closer(&near, &far));
    assert!(!target.closer(&far, &near));
    assert!(!target.closer(&near, &near));
    assert!(target.closer(&target, &near));
}

#[test]
fn closer_is_relative_to_the_target() {
    // From 0b0100 the key 0b0101 is at distance 1 and 0b0001 at distance 5.
    let target = key_with(31, 4);
    let a = key_with(31, 5);
    let b = key_with(31, 1);
    assert!(target.closer(&a, &b));
    // From zero it is the other way round.
    let zero = RoutingKey::from_bytes([0u8; 32]);
    assert!(zero.closer(&b, &a));
}

#[test]
fn keys_compare_by_bytes() {
    assert!(key_with(5, 1).same(&key_with(5, 1)));
    assert!(!key_with(5, 1).same(&key_with(5, 2)));
    assert!(!key_with(5, 1).same(&key_with(6, 1)));
    assert_eq!(key_with(5, 1), key_with(5, 1));
}
