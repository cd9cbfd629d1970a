use sheeld::bootstrap::{find_end, find_last, parse_bootnodes, parse_line, Bootnode};
use sheeld::identity::{PeerAddress, PeerIdentity};
use sheeld::swarm::{Config, Node};

const FIRST_ID: &str = "QmcgpsyWgH8Y8ajJz1Cu72KnS5uo2Aa2LpzU7kinSupNKC";
const SECOND_ID: &str = "12D3KooWRNw2pJC9748Fmq4WNV27HoSTcX3r37132FLkQMrbKAiC";

fn first_line() -> String {
    format!("/ip4/127.0.0.1/tcp/4001:{}", FIRST_ID)
}

fn second_line() -> String {
    format!("/ip4/10.0.0.2/tcp/4002:{}", SECOND_ID)
}

#[test]
fn garbage_line_between_two_entries_is_skipped() {
    let content = format!("{}\ngarbage-line\n{}", first_line(), second_line());
    let list = parse_bootnodes(&content);
    assert_eq!(list.nodes.len(), 2);
    assert_eq!(list.skipped, vec![1]);
    assert_eq!(list.nodes[0], Bootnode::new("/ip4/127.0.0.1/tcp/4001", FIRST_ID));
    assert_eq!(list.nodes[1], Bootnode::new("/ip4/10.0.0.2/tcp/4002", SECOND_ID));

    let mut node = Node::new(PeerIdentity::from_bytes(vec![1, 2, 3]), Config::default()).unwrap();
    node.seed(&list.nodes, 100);
    assert_eq!(node.directory().len(), 2);
    assert_eq!(node.routing().len(), 2);
    let first = PeerIdentity::parse(FIRST_ID).unwrap();
    let second = PeerIdentity::parse(SECOND_ID).unwrap();
    assert!(node.directory().get(&first).is_some());
    assert!(node.directory().get(&second).is_some());
    let near = node.closest_peers(&first, 1);
    assert_eq!(near.len(), 1);
    assert_eq!(near[0].identity, first);
}

#[test]
fn empty_list_has_no_line() {
    let list = parse_bootnodes("");
    assert!(list.nodes.is_empty());
    assert!(list.skipped.is_empty());
}

#[test]
fn no_line_stands_behind_the_last_line_feed() {
    let content = format!("{}\n", first_line());
    let list = parse_bootnodes(&content);
    assert_eq!(list.nodes.len(), 1);
    assert!(list.skipped.is_empty());
    let content = format!("{}\n{}\n", first_line(), second_line());
    let list = parse_bootnodes(&content);
    assert_eq!(list.nodes.len(), 2);
    assert!(list.skipped.is_empty());
}

#[test]
fn empty_lines_are_skipped() {
    let list = parse_bootnodes("\n");
    assert!(list.nodes.is_empty());
    assert_eq!(list.skipped, vec![0]);
    let content = format!("\n{}\n\n{}\n\n", first_line(), second_line());
    let list = parse_bootnodes(&content);
    assert_eq!(list.nodes.len(), 2);
    assert_eq!(list.skipped, vec![0, 2, 4]);
}

#[test]
fn every_line_bad() {
    let list = parse_bootnodes("a\nb:c\n:\n");
    assert!(list.nodes.is_empty());
    assert_eq!(list.skipped, vec![0, 1, 2]);
    let list = parse_bootnodes("a\nb:c\n:");
    assert_eq!(list.skipped, vec![0, 1, 2]);
}

#[test]
fn list_of_one_line_with_colons_in_its_address_names_one_peer() {
    let second = "QmNnooDu7bfjPFoTZYxMNLWUQJyrVwtbZg5gBMjTezGAJN";
    let content = format!("/ip6/::1/tcp/4001:{}", second);
    let list = parse_bootnodes(&content);
    assert!(list.skipped.is_empty());
    assert_eq!(list.nodes.len(), 1);
    assert_eq!(list.nodes[0].multiaddr(), &PeerAddress::parse("/ip6/::1/tcp/4001").unwrap());
    assert_eq!(list.nodes[0].peer_id(), &PeerIdentity::parse(second).unwrap());
}

#[test]
fn entries_keep_the_order_of_their_lines() {
    let content = format!("{}\n{}\n{}", second_line(), first_line(), second_line());
    let list = parse_bootnodes(&content);
    assert_eq!(list.nodes.len(), 3);
    assert!(list.skipped.is_empty());
    assert_eq!(list.nodes[0].peer_id(), &PeerIdentity::parse(SECOND_ID).unwrap());
    assert_eq!(list.nodes[1].peer_id(), &PeerIdentity::parse(FIRST_ID).unwrap());
    assert_eq!(list.nodes[2].peer_id(), &PeerIdentity::parse(SECOND_ID).unwrap());
}

#[test]
fn line_without_colon_holds_no_entry() {
    assert!(parse_line("garbage-line").is_none());
    assert!(parse_line("").is_none());
    assert!(parse_line("/ip4/127.0.0.1/tcp/4001").is_none());
}

#[test]
fn line_with_bad_identity_holds_no_entry() {
    assert!(parse_line("/ip4/127.0.0.1/tcp/4001:nobody").is_none());
    assert!(parse_line("/ip4/127.0.0.1/tcp/4001:").is_none());
}

#[test]
fn line_with_bad_address_holds_no_entry() {
    assert!(parse_line(&format!("127.0.0.1:{}", FIRST_ID)).is_none());
    assert!(parse_line(&format!("/ip4/300.0.0.1/tcp/1:{}", FIRST_ID)).is_none());
}

#[test]
fn line_without_an_address_holds_no_entry() {
    assert!(parse_line(&format!(":{}", FIRST_ID)).is_none());
    assert!(parse_line(":").is_none());
}

#[test]
fn line_with_more_behind_the_identity_holds_no_entry() {
    let line = format!("{}:ignored", first_line());
    assert!(parse_line(&line).is_none());
    let line = format!("{}:", first_line());
    assert!(parse_line(&line).is_none());
    let line = format!("{}:{}", first_line(), FIRST_ID);
    assert!(parse_line(&line).is_none());
}

#[test]
fn address_reaches_to_the_last_colon() {
    let line = format!("/ip6/::1/tcp/4001:{}", FIRST_ID);
    let node = parse_line(&line).expect("an entry");
    let mut bytes = vec![41u8];
    bytes.extend_from_slice(&[0u8; 15]);
    bytes.extend_from_slice(&[1, 6, 15, 161]);
    assert_eq!(node.multiaddr(), &PeerAddress::from_bytes(bytes));
    assert_eq!(node.peer_id(), &PeerIdentity::parse(FIRST_ID).unwrap());
    let line = format!("/ip6/2001:db8::ff00:42:8329/udp/9:{}", SECOND_ID);
    let node = parse_line(&line).expect("an entry");
    assert_eq!(node.multiaddr(), &PeerAddress::parse("/ip6/2001:db8::ff00:42:8329/udp/9").unwrap());
    assert_eq!(node.peer_id(), &PeerIdentity::parse(SECOND_ID).unwrap());
}

#[test]
fn fields_are_not_swapped() {
    assert!(parse_line(&format!("{}:/ip4/127.0.0.1/tcp/4001", FIRST_ID)).is_none());
}

#[test]
fn line_entry_takes_characters_not_bytes() {
    // The characters before the colon take more than one byte each.
    let line = format!("/dns4/b\u{fc}cher.example/tcp/1:{}", FIRST_ID);
    let node = parse_line(&line);
    let direct = PeerAddress::parse("/dns4/b\u{fc}cher.example/tcp/1");
    assert_eq!(node.is_some(), direct.is_some());
    if let (Some(node), Some(direct)) = (node, direct) {
        assert_eq!(node.multiaddr(), &direct);
    }
}

#[test]
fn find_end_finds_the_first_separator() {
    assert_eq!(find_end("ab:cd:e", 0, ':'), 2);
    assert_eq!(find_end("ab:cd:e", 2, ':'), 2);
    assert_eq!(find_end("ab:cd:e", 3, ':'), 5);
    assert_eq!(find_end("ab:cd:e", 6, ':'), 7);
    assert_eq!(find_end("ab:cd:e", 7, ':'), 7);
    assert_eq!(find_end("", 0, ':'), 0);
    assert_eq!(find_end("ab", 5, ':'), 5);
    assert_eq!(find_end("\u{e9}\u{e9}:x", 0, ':'), 2);
}

#[test]
fn find_last_finds_the_last_separator() {
    assert_eq!(find_last("ab:cd:e", ':'), Some(5));
    assert_eq!(find_last("ab:cd", ':'), Some(2));
    assert_eq!(find_last(":", ':'), Some(0));
    assert_eq!(find_last("abc:", ':'), Some(3));
    assert_eq!(find_last("abc", ':'), None);
    assert_eq!(find_last("", ':'), None);
    assert_eq!(find_last("\u{e9}\u{e9}:x:\u{e9}", ':'), Some(4));
}

#[test]
fn bootnode_parts() {
    let node = Bootnode::new("/ip4/127.0.0.1/tcp/4001", FIRST_ID);
    assert_eq!(node.multiaddr(), &PeerAddress::from_bytes(vec![4, 127, 0, 0, 1, 6, 15, 161]));
    assert_eq!(node.peer_id(), &PeerIdentity::parse(FIRST_ID).unwrap());
    assert_eq!(Bootnode::parse("/ip4/127.0.0.1/tcp/4001", FIRST_ID), Some(node));
    assert_eq!(Bootnode::parse("x", FIRST_ID), None);
    assert_eq!(Bootnode::parse("/ip4/127.0.0.1/tcp/4001", "x"), None);
}
