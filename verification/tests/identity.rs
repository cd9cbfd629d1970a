use sheeld::identity::{copy_bytes, same_bytes, PeerAddress, PeerIdentity, PeerInfo};

const HASHED_ID: &str = "QmcgpsyWgH8Y8ajJz1Cu72KnS5uo2Aa2LpzU7kinSupNKC";
const INLINE_ID: &str = "12D3KooWRNw2pJC9748Fmq4WNV27HoSTcX3r37132FLkQMrbKAiC";

#[test]
fn peer_id_text_decodes_to_its_multihash_bytes() {
    let id = PeerIdentity::parse(HASHED_ID).expect("a valid peer id");
    let expected: Vec<u8> = vec![
        18, 32, 213, 46, 187, 137, 216, 91, 2, 162, 132, 148, 130, 3, 166, 47, 242, 131, 137, 197,
        124, 159, 66, 190, 236, 78, 194, 13, 183, 106, 104, 145, 28, 11,
    ];
    assert_eq!(id.as_bytes(), expected.as_slice());
    assert_ne!(id.as_bytes(), HASHED_ID.as_bytes());
}

#[test]
fn inline_key_peer_id_decodes_to_identity_multihash() {
    let id = PeerIdentity::parse(INLINE_ID).expect("a valid peer id");
    let expected: Vec<u8> = vec![
        0, 36, 8, 1, 18, 32, 231, 55, 12, 102, 239, 236, 128, 0, 213, 135, 252, 65, 101, 146, 142,
        224, 117, 95, 148, 134, 203, 92, 240, 247, 128, 216, 224, 108, 152, 206, 125, 169,
    ];
    assert_eq!(id.as_bytes(), expected.as_slice());
}

#[test]
fn peer_id_text_that_is_not_base58_is_rejected() {
    assert!(PeerIdentity::parse("garbage-line").is_none());
    assert!(PeerIdentity::parse("").is_none());
    assert!(PeerIdentity::parse("0OIl").is_none());
}

#[test]
fn peer_id_text_with_unsupported_multihash_is_rejected() {
    // Valid base58, but not a multihash that names a peer.
    assert!(PeerIdentity::parse("abc").is_none());
}

#[test]
fn multiaddr_text_encodes_to_its_bytes() {
    let addr = PeerAddress::parse("/ip4/127.0.0.1/tcp/4001").expect("a valid multiaddr");
    let expected: Vec<u8> = vec![4, 127, 0, 0, 1, 6, 15, 161];
    assert_eq!(addr.as_bytes(), expected.as_slice());
}

#[test]
fn empty_multiaddr_text_is_the_empty_address() {
    assert_eq!(PeerAddress::parse(""), Some(PeerAddress::from_bytes(vec![])));
}

#[test]
fn multiaddr_text_without_leading_slash_is_rejected() {
    assert!(PeerAddress::parse("ip4/127.0.0.1/tcp/4001").is_none());
    assert!(PeerAddress::parse("garbage-line").is_none());
}

#[test]
fn multiaddr_text_with_unknown_protocol_is_rejected() {
    assert!(PeerAddress::parse("/nosuchprotocol/1").is_none());
    assert!(PeerAddress::parse("/ip4/999.0.0.1/tcp/1").is_none());
}

#[test]
fn peer_info_new_holds_both_parts() {
    let info = PeerInfo::new("/ip4/127.0.0.1/tcp/4001", HASHED_ID);
    assert_eq!(info.multiaddr, PeerAddress::from_bytes(vec![4, 127, 0, 0, 1, 6, 15, 161]));
    assert_eq!(info.peer_id, PeerIdentity::parse(HASHED_ID).unwrap());
}

#[test]
fn peer_info_parse_accepts_what_new_accepts() {
    let parsed = PeerInfo::parse("/ip4/127.0.0.1/tcp/4001", HASHED_ID).expect("both parts valid");
    assert_eq!(parsed, PeerInfo::new("/ip4/127.0.0.1/tcp/4001", HASHED_ID));
}

#[test]
fn peer_info_parse_rejects_a_bad_part() {
    assert!(PeerInfo::parse("/ip4/127.0.0.1/tcp/4001", "not-a-peer").is_none());
    assert!(PeerInfo::parse("nowhere", HASHED_ID).is_none());
    assert!(PeerInfo::parse("", "").is_none());
    assert!(PeerInfo::parse("", HASHED_ID).is_some());
}

#[test]
fn identities_compare_by_bytes() {
    let a = PeerIdentity::from_bytes(vec![1, 2, 3]);
    let b = PeerIdentity::from_bytes(vec![1, 2, 3]);
    let c = PeerIdentity::from_bytes(vec![1, 2, 4]);
    let d = PeerIdentity::from_bytes(vec![1, 2]);
    assert!(a.same(&b));
    assert!(!a.same(&c));
    assert!(!a.same(&d));
    assert!(a.clone().same(&a));
}

#[test]
fn addresses_compare_by_bytes() {
    let a = PeerAddress::from_bytes(vec![4, 127, 0, 0, 1]);
    let b = PeerAddress::from_bytes(vec![4, 127, 0, 0, 2]);
    assert!(a.same(&a.clone()));
    assert!(!a.same(&b));
}

#[test]
fn byte_helpers() {
    assert!(same_bytes(&[], &[]));
    assert!(same_bytes(&[1, 2], &[1, 2]));
    assert!(!same_bytes(&[1, 2], &[2, 1]));
    assert!(!same_bytes(&[1], &[1, 0]));
    assert_eq!(copy_bytes(&[7, 8, 9]), vec![7, 8, 9]);
    assert_eq!(copy_bytes(&[]), Vec::<u8>::new());
}
