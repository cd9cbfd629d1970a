use sheeld::gossip::{message_id, Envelope, TopicOverlay, DEFAULT_WINDOW, HASH_OFFSET, HASH_PRIME};
use sheeld::identity::PeerIdentity;

fn id(n: u8) -> PeerIdentity {
    PeerIdentity::from_bytes(vec![n])
}

fn topic(name: &str) -> String {
    name.to_string()
}

fn envelope(name: &str, payload: &[u8], origin: u8, sequence: u64) -> Envelope {
    Envelope::new(topic(name), payload.to_vec(), id(origin), sequence)
}

#[test]
fn hash_constants() {
    assert_eq!(HASH_OFFSET, 14695981039346656037);
    assert_eq!(HASH_PRIME, 1099511628211);
    assert_eq!(DEFAULT_WINDOW, 1024);
}

#[test]
fn message_id_of_known_contents() {
    let origin = PeerIdentity::from_bytes(vec![1, 2, 3]);
    assert_eq!(message_id("t", b"hello", &origin, 0), 11632740791604182170);
    assert_eq!(message_id("t", b"hello", &origin, 1), 11632741891115810381);
    assert_eq!(message_id("ping", b"", &id(9), 7), 13018937049098225800);
    assert_eq!(message_id("", b"", &PeerIdentity::from_bytes(vec![]), 0), 5558979605539197941);
    assert_eq!(message_id("caf\u{e9}", b"x", &id(1), 2), 14725457147421683537);
}

#[test]
fn message_id_frames_its_parts() {
    // The same bytes cut differently between topic and payload.
    let a = message_id("ab", b"c", &id(1), 0);
    let b = message_id("a", b"bc", &id(1), 0);
    assert_ne!(a, b);
}

#[test]
fn envelope_is_sealed_with_the_id_of_its_content() {
    let e = envelope("t", b"hello", 4, 11);
    assert_eq!(e.topic(), "t");
    assert_eq!(e.payload(), b"hello");
    assert_eq!(e.origin(), &id(4));
    assert_eq!(e.sequence(), 11);
    assert_eq!(e.message_id(), message_id("t", b"hello", &id(4), 11));
    assert_eq!(e.clone(), e);
}

#[test]
fn same_content_same_id() {
    let a = envelope("t", b"payload", 1, 5);
    let b = envelope("t", b"payload", 1, 5);
    assert_eq!(a.message_id(), b.message_id());
    assert_eq!(a, b);
}

#[test]
fn other_content_other_id() {
    let base = envelope("t", b"payload", 1, 5).message_id();
    assert_ne!(base, envelope("u", b"payload", 1, 5).message_id());
    assert_ne!(base, envelope("t", b"payloae", 1, 5).message_id());
    assert_ne!(base, envelope("t", b"payload", 2, 5).message_id());
    assert_ne!(base, envelope("t", b"payload", 1, 6).message_id());
}

#[test]
fn no_overlay_is_made_with_an_empty_window() {
    assert!(TopicOverlay::new(0).is_none());
    assert!(TopicOverlay::new(1).is_some());
}

#[test]
fn new_overlay_knows_nothing() {
    let overlay = TopicOverlay::new(4).unwrap();
    assert!(overlay.subscriptions().is_empty());
    assert!(!overlay.is_subscribed(&topic("t")));
    assert!(!overlay.has_seen(0));
    assert!(overlay.members(&topic("t"), None).is_empty());
}

#[test]
fn subscribing_twice_is_subscribing_once() {
    let mut overlay = TopicOverlay::new(4).unwrap();
    assert!(overlay.subscribe(topic("t")));
    assert!(!overlay.subscribe(topic("t")));
    assert_eq!(overlay.subscriptions(), vec![topic("t")]);
    assert!(overlay.is_subscribed(&topic("t")));
}

#[test]
fn leaving_a_topic_not_subscribed_changes_nothing() {
    let mut overlay = TopicOverlay::new(4).unwrap();
    overlay.subscribe(topic("a"));
    overlay.subscribe(topic("b"));
    assert!(!overlay.unsubscribe(&topic("c")));
    assert_eq!(overlay.subscriptions(), vec![topic("a"), topic("b")]);
    assert!(overlay.unsubscribe(&topic("a")));
    assert!(!overlay.unsubscribe(&topic("a")));
    assert_eq!(overlay.subscriptions(), vec![topic("b")]);
}

#[test]
fn members_are_the_peers_that_announced_the_topic() {
    let mut overlay = TopicOverlay::new(4).unwrap();
    overlay.peer_subscribed(id(1), topic("t"));
    overlay.peer_subscribed(id(2), topic("u"));
    overlay.peer_subscribed(id(3), topic("t"));
    overlay.peer_subscribed(id(2), topic("t"));
    overlay.peer_subscribed(id(1), topic("t"));
    assert_eq!(overlay.members(&topic("t"), None), vec![id(1), id(2), id(3)]);
    assert_eq!(overlay.members(&topic("u"), None), vec![id(2)]);
    assert_eq!(overlay.members(&topic("t"), Some(&id(2))), vec![id(1), id(3)]);
    assert_eq!(overlay.members(&topic("t"), Some(&id(9))), vec![id(1), id(2), id(3)]);
    assert!(overlay.members(&topic("v"), None).is_empty());
}

#[test]
fn peer_leaves_a_topic_or_is_forgotten() {
    let mut overlay = TopicOverlay::new(4).unwrap();
    overlay.peer_subscribed(id(1), topic("t"));
    overlay.peer_subscribed(id(1), topic("u"));
    overlay.peer_subscribed(id(2), topic("t"));
    overlay.peer_unsubscribed(&id(1), &topic("t"));
    overlay.peer_unsubscribed(&id(1), &topic("zzz"));
    overlay.peer_unsubscribed(&id(7), &topic("t"));
    assert_eq!(overlay.members(&topic("t"), None), vec![id(2)]);
    assert_eq!(overlay.members(&topic("u"), None), vec![id(1)]);
    overlay.forget_peer(&id(1));
    overlay.forget_peer(&id(1));
    assert!(overlay.members(&topic("u"), None).is_empty());
    assert_eq!(overlay.members(&topic("t"), None), vec![id(2)]);
}

#[test]
fn publish_seals_sends_to_the_members_and_counts_on() {
    let mut overlay = TopicOverlay::new(4).unwrap();
    overlay.peer_subscribed(id(1), topic("t"));
    overlay.peer_subscribed(id(2), topic("u"));
    overlay.peer_subscribed(id(3), topic("t"));
    let first = overlay.publish(topic("t"), b"one".to_vec(), id(9));
    assert_eq!(first.envelope, envelope("t", b"one", 9, 0));
    assert_eq!(first.recipients, vec![id(1), id(3)]);
    assert!(overlay.has_seen(first.envelope.message_id()));
    let second = overlay.publish(topic("t"), b"one".to_vec(), id(9));
    assert_eq!(second.envelope.sequence(), 1);
    assert_ne!(second.envelope.message_id(), first.envelope.message_id());
    let third = overlay.publish(topic("nobody"), b"".to_vec(), id(9));
    assert_eq!(third.envelope.sequence(), 2);
    assert!(third.recipients.is_empty());
}

#[test]
fn own_message_coming_back_is_a_duplicate() {
    let mut overlay = TopicOverlay::new(4).unwrap();
    overlay.subscribe(topic("t"));
    overlay.peer_subscribed(id(1), topic("t"));
    let out = overlay.publish(topic("t"), b"x".to_vec(), id(9));
    let r = overlay.receive(&id(1), &out.envelope);
    assert!(r.duplicate);
    assert!(!r.deliver);
    assert!(r.forward_to.is_empty());
}

#[test]
fn fresh_envelope_is_delivered_and_forwarded_but_not_to_its_sender() {
    let mut overlay = TopicOverlay::new(4).unwrap();
    overlay.subscribe(topic("t"));
    overlay.peer_subscribed(id(1), topic("t"));
    overlay.peer_subscribed(id(2), topic("t"));
    overlay.peer_subscribed(id(3), topic("other"));
    let e = envelope("t", b"x", 7, 0);
    let r = overlay.receive(&id(1), &e);
    assert!(!r.duplicate);
    assert!(r.deliver);
    assert_eq!(r.forward_to, vec![id(2)]);
    assert!(overlay.has_seen(e.message_id()));
}

#[test]
fn envelope_on_a_topic_not_subscribed_is_noted_only() {
    let mut overlay = TopicOverlay::new(4).unwrap();
    overlay.peer_subscribed(id(2), topic("t"));
    let e = envelope("t", b"x", 7, 0);
    let r = overlay.receive(&id(1), &e);
    assert!(!r.duplicate);
    assert!(!r.deliver);
    assert!(r.forward_to.is_empty());
    assert!(overlay.has_seen(e.message_id()));
    // Subscribing afterwards does not bring it back.
    overlay.subscribe(topic("t"));
    assert!(overlay.receive(&id(1), &e).duplicate);
}

#[test]
fn retransmitted_envelope_is_delivered_once() {
    let mut overlay = TopicOverlay::new(4).unwrap();
    overlay.subscribe(topic("t"));
    let e = envelope("t", b"E", 1, 0);
    let mut delivered = 0;
    for _ in 0..5 {
        if overlay.receive(&id(1), &e).deliver {
            delivered += 1;
        }
    }
    assert_eq!(delivered, 1);
    // Nor does it matter which peer sends it again.
    assert!(!overlay.receive(&id(2), &e).deliver);
}

#[test]
fn window_forgets_the_oldest_id_when_full() {
    let mut overlay = TopicOverlay::new(2).unwrap();
    overlay.subscribe(topic("t"));
    let a = envelope("t", b"a", 1, 0);
    let b = envelope("t", b"b", 1, 1);
    let c = envelope("t", b"c", 1, 2);
    assert!(overlay.receive(&id(1), &a).deliver);
    assert!(overlay.receive(&id(1), &b).deliver);
    // One further envelope, fewer than the window's size: `a` is remembered.
    assert!(overlay.receive(&id(1), &a).duplicate);
    assert!(overlay.receive(&id(1), &c).deliver);
    assert!(!overlay.has_seen(a.message_id()));
    assert!(overlay.has_seen(b.message_id()));
    assert!(overlay.has_seen(c.message_id()));
    // After as many further envelopes as the window holds, `a` is new again.
    assert!(overlay.receive(&id(1), &a).deliver);
    assert!(!overlay.has_seen(b.message_id()));
}

#[test]
fn window_of_one_remembers_the_last_id_only() {
    let mut overlay = TopicOverlay::new(1).unwrap();
    overlay.subscribe(topic("t"));
    let a = envelope("t", b"a", 1, 0);
    let b = envelope("t", b"b", 1, 1);
    assert!(overlay.receive(&id(1), &a).deliver);
    assert!(overlay.receive(&id(1), &a).duplicate);
    assert!(overlay.receive(&id(1), &b).deliver);
    assert!(overlay.receive(&id(1), &a).deliver);
}

#[test]
fn duplicate_does_not_renew_its_place_in_the_window() {
    let mut overlay = TopicOverlay::new(2).unwrap();
    let a = envelope("t", b"a", 1, 0);
    let b = envelope("t", b"b", 1, 1);
    let c = envelope("t", b"c", 1, 2);
    overlay.receive(&id(1), &a);
    overlay.receive(&id(1), &b);
    assert!(overlay.receive(&id(1), &a).duplicate);
    overlay.receive(&id(1), &c);
    assert!(!overlay.has_seen(a.message_id()));
}
