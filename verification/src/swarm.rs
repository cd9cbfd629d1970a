//! The node: the overlay's whole state and the dispatch of events to it.
//!
//! The embedding program owns the transport. It turns what the network and
//! its own callers bring into events, hands them to `Node::handle_event` one
//! at a time, and carries out the actions that come back. All state changes
//! happen inside that call, so they are serial by construction.

use crate::bootstrap::{BootEntry, Bootnode};
use crate::connection::{
    abandoned, closed, connected, established, is_connected, lemma_others_unchanged, opened, peers,
    valid_table, ConnectionTable, ConnectionView,
};
use crate::directory::{
    address_dropped, expired, ids, law_upsert_keeps_time, lemma_address_dropped_seen,
    lemma_filter_seen, seen_at, stale, upserted, valid_directory, views, DirectorySnapshot,
    PeerDirectory, PeerRecord, RecordView, Source,
};
use crate::gossip::{
    envelope_of, link_added, link_cut, link_dropped, link_peers, peer_views, published, received,
    reception, targets, topic_views, valid_overlay, with_topic, without_topic, Envelope,
    EnvelopeView, OverlayView, TopicOverlay, DEFAULT_WINDOW,
};
use crate::identity::{PeerAddress, PeerIdentity};
use crate::index::{lemma_map_push, lemma_position_at, lemma_remove_key, position};
use crate::keyspace::{kad_key_bytes, RoutingKey};
use crate::routing::{
    derived, entry_views, inserted, valid, without, EntryView, RoutingEntry, RoutingTable,
    TableView, DEFAULT_BUCKET_CAPACITY, MAX_BUCKET_CAPACITY,
};
use vstd::prelude::*;

verus! {

/// How long a peer learned by local discovery is kept without news of it,
/// unless the node is made with another time.
pub const DEFAULT_EXPIRY: u64 = 300;

/// Where a node listens unless it is told otherwise: on all interfaces, at a
/// port that the system picks.
pub const DEFAULT_LISTEN_ADDRESS: &'static str = "/ip4/0.0.0.0/tcp/0";

/// The settings a node is made with.
#[derive(Clone, Copy, Debug, PartialEq, Eq)]
pub struct Config {
    /// The capacity of each bucket of the routing table.
    pub bucket_capacity: usize,
    /// The size of the duplicate-suppression window.
    pub window: usize,
    /// How long a peer learned by local discovery is kept without news of it.
    pub expiry: u64,
}

impl Config {
    /// Whether a node can be made with these settings.
    pub open spec fn valid(&self) -> bool {
        1 <= self.bucket_capacity <= MAX_BUCKET_CAPACITY && self.window >= 1
    }

    /// Whether a node can be made with these settings.
    pub fn is_valid(&self) -> (r: bool)
        ensures
            r == self.valid(),
    {
        1 <= self.bucket_capacity && self.bucket_capacity <= MAX_BUCKET_CAPACITY && self.window >= 1
    }
}

impl Default for Config {
    /// The settings of a node unless it is made with others.
    fn default() -> (config: Self)
        ensures
            config.valid(),
            config.bucket_capacity == DEFAULT_BUCKET_CAPACITY,
            config.window == DEFAULT_WINDOW,
            config.expiry == DEFAULT_EXPIRY,
    {
        Config {
            bucket_capacity: DEFAULT_BUCKET_CAPACITY,
            window: DEFAULT_WINDOW,
            expiry: DEFAULT_EXPIRY,
        }
    }
}

/// Why a connection closed.
#[derive(Clone, Copy, Debug, PartialEq, Eq, Structural)]
pub enum CloseCause {
    /// Either side closed it in an orderly way.
    Graceful,
    /// The transport failed.
    Io,
    /// The peer was silent for too long.
    KeepAliveTimeout,
}

/// What the network, or a caller of the node, brings.
#[derive(Debug, PartialEq, Eq)]
pub enum Event {
    /// The handshake with a peer completed.
    ConnectionOpened { peer: PeerIdentity, address: PeerAddress, now: u64 },
    /// The connection to a peer closed.
    ConnectionClosed { peer: PeerIdentity, cause: CloseCause },
    /// A dial did not lead to a connection.
    DialFailed { peer: PeerIdentity },
    /// A peer sent an envelope.
    MessageReceived { from: PeerIdentity, envelope: Envelope },
    /// A peer advertised itself on the local network.
    PeerDiscovered { peer: PeerIdentity, address: PeerAddress, now: u64 },
    /// A peer announced that it subscribed to a topic.
    PeerSubscribed { peer: PeerIdentity, topic: String },
    /// A peer announced that it left a topic.
    PeerUnsubscribed { peer: PeerIdentity, topic: String },
    /// Command: dial a peer.
    Dial { peer: PeerIdentity, address: PeerAddress, now: u64 },
    /// Command: publish a message.
    Publish { topic: String, payload: Vec<u8> },
    /// Command: subscribe to a topic.
    Subscribe { topic: String },
    /// Command: leave a topic.
    Unsubscribe { topic: String },
    /// The time has come to drop what local discovery has not heard of.
    Expire { now: u64 },
    /// The time has come for the directory's consistency check.
    CheckDirectory,
    /// The node is to stop.
    Shutdown,
}

/// An event as the contracts speak of it.
pub enum EventView {
    ConnectionOpened { peer: Seq<u8>, address: Seq<u8>, now: u64 },
    ConnectionClosed { peer: Seq<u8>, cause: CloseCause },
    DialFailed { peer: Seq<u8> },
    MessageReceived { from: Seq<u8>, envelope: EnvelopeView },
    PeerDiscovered { peer: Seq<u8>, address: Seq<u8>, now: u64 },
    PeerSubscribed { peer: Seq<u8>, topic: Seq<char> },
    PeerUnsubscribed { peer: Seq<u8>, topic: Seq<char> },
    Dial { peer: Seq<u8>, address: Seq<u8>, now: u64 },
    Publish { topic: Seq<char>, payload: Seq<u8> },
    Subscribe { topic: Seq<char> },
    Unsubscribe { topic: Seq<char> },
    Expire { now: u64 },
    CheckDirectory,
    Shutdown,
}

impl View for Event {
    type V = EventView;

    open spec fn view(&self) -> EventView {
        match self {
            Event::ConnectionOpened { peer, address, now } => EventView::ConnectionOpened {
                peer: peer@,
                address: address@,
                now: *now,
            },
            Event::ConnectionClosed { peer, cause } => EventView::ConnectionClosed {
                peer: peer@,
                cause: *cause,
            },
            Event::DialFailed { peer } => EventView::DialFailed { peer: peer@ },
            Event::MessageReceived { from, envelope } => EventView::MessageReceived {
                from: from@,
                envelope: envelope@,
            },
            Event::PeerDiscovered { peer, address, now } => EventView::PeerDiscovered {
                peer: peer@,
                address: address@,
                now: *now,
            },
            Event::PeerSubscribed { peer, topic } => EventView::PeerSubscribed {
                peer: peer@,
                topic: topic@,
            },
            Event::PeerUnsubscribed { peer, topic } => EventView::PeerUnsubscribed {
                peer: peer@,
                topic: topic@,
            },
            Event::Dial { peer, address, now } => EventView::Dial {
                peer: peer@,
                address: address@,
                now: *now,
            },
            Event::Publish { topic, payload } => EventView::Publish { topic: topic@, payload: payload@ },
            Event::Subscribe { topic } => EventView::Subscribe { topic: topic@ },
            Event::Unsubscribe { topic } => EventView::Unsubscribe { topic: topic@ },
            Event::Expire { now } => EventView::Expire { now: *now },
            Event::CheckDirectory => EventView::CheckDirectory,
            Event::Shutdown => EventView::Shutdown,
        }
    }
}

/// What the node asks the embedding program to do.
#[derive(Debug, PartialEq, Eq)]
pub enum Action {
    /// Dial a peer.
    Dial { peer: PeerIdentity, address: PeerAddress },
    /// Send an envelope to a connected peer.
    Send { to: PeerIdentity, envelope: Envelope },
    /// Hand an envelope to the local application.
    Deliver { envelope: Envelope },
    /// Tell a connected peer that the node subscribed to a topic.
    AnnounceSubscribe { to: PeerIdentity, topic: String },
    /// Tell a connected peer that the node left a topic.
    AnnounceUnsubscribe { to: PeerIdentity, topic: String },
    /// Note, for diagnostics, that a connection closed and why.
    ReportClosed { peer: PeerIdentity, address: PeerAddress, cause: CloseCause },
    /// Stop the loop.
    Stop,
}

/// An action as the contracts speak of it.
pub enum ActionView {
    Dial { peer: Seq<u8>, address: Seq<u8> },
    Send { to: Seq<u8>, envelope: EnvelopeView },
    Deliver { envelope: EnvelopeView },
    AnnounceSubscribe { to: Seq<u8>, topic: Seq<char> },
    AnnounceUnsubscribe { to: Seq<u8>, topic: Seq<char> },
    ReportClosed { peer: Seq<u8>, address: Seq<u8>, cause: CloseCause },
    Stop,
}

impl View for Action {
    type V = ActionView;

    open spec fn view(&self) -> ActionView {
        match self {
            Action::Dial { peer, address } => ActionView::Dial { peer: peer@, address: address@ },
            Action::Send { to, envelope } => ActionView::Send { to: to@, envelope: envelope@ },
            Action::Deliver { envelope } => ActionView::Deliver { envelope: envelope@ },
            Action::AnnounceSubscribe { to, topic } => ActionView::AnnounceSubscribe {
                to: to@,
                topic: topic@,
            },
            Action::AnnounceUnsubscribe { to, topic } => ActionView::AnnounceUnsubscribe {
                to: to@,
                topic: topic@,
            },
            Action::ReportClosed { peer, address, cause } => ActionView::ReportClosed {
                peer: peer@,
                address: address@,
                cause: *cause,
            },
            Action::Stop => ActionView::Stop,
        }
    }
}

/// The views of a list of actions.
pub open spec fn action_views(actions: Seq<Action>) -> Seq<ActionView> {
    actions.map_values(|a: Action| a@)
}

/// The node as the contracts speak of it.
pub struct NodeView {
    pub local: Seq<u8>,
    pub directory: Seq<RecordView>,
    pub routing: TableView,
    pub overlay: OverlayView,
    pub connections: Seq<ConnectionView>,
    pub expiry: u64,
    pub running: bool,
}

/// What an event leads to: the node after it, and the actions to carry out.
pub struct Step {
    pub node: NodeView,
    pub actions: Seq<ActionView>,
}

/// A node is valid: each of its parts is, the routing table is built around
/// the routing key of the node's identity and keeps every peer under the
/// routing key of its identity, and only connected peers have topics noted.
pub open spec fn valid_node(node: NodeView) -> bool {
    &&& valid_directory(node.directory)
    &&& valid(node.routing)
    &&& derived(node.routing)
    &&& node.routing.local == kad_key_bytes(node.local)
    &&& valid_overlay(node.overlay)
    &&& valid_table(node.connections)
    &&& forall|i: int|
        0 <= i < node.overlay.links.len() ==> is_connected(
            node.connections,
            (#[trigger] node.overlay.links[i]).peer,
        )
}

/// The running node `local` that knows no peer, has no connection and
/// subscribes to nothing.
pub open spec fn fresh_node(local: Seq<u8>, config: Config) -> NodeView {
    NodeView {
        local,
        directory: Seq::empty(),
        routing: crate::routing::empty_table(kad_key_bytes(local), config.bucket_capacity as nat),
        overlay: crate::gossip::empty_overlay(config.window as nat),
        connections: Seq::empty(),
        expiry: config.expiry,
        running: true,
    }
}

/// The record that a sighting of a peer makes.
pub open spec fn sighting(peer: Seq<u8>, address: Seq<u8>, now: u64, source: Source) -> RecordView {
    RecordView { identity: peer, addresses: seq![address], last_seen: now, source }
}

/// The routing entry that a sighting of a peer makes.
pub open spec fn routed(peer: Seq<u8>, address: Seq<u8>, now: u64) -> EntryView {
    EntryView { key: kad_key_bytes(peer), identity: peer, address, last_seen: now }
}

/// One action per peer: send it the envelope.
pub open spec fn sends(to: Seq<Seq<u8>>, envelope: EnvelopeView) -> Seq<ActionView> {
    to.map_values(|p: Seq<u8>| ActionView::Send { to: p, envelope })
}

/// One action per topic: tell the peer that the node subscribes to it.
pub open spec fn announcements(to: Seq<u8>, topics: Seq<Seq<char>>) -> Seq<ActionView> {
    topics.map_values(|t: Seq<char>| ActionView::AnnounceSubscribe { to, topic: t })
}

/// One action per peer: tell it that the node joined, or left, the topic.
pub open spec fn broadcasts(to: Seq<Seq<u8>>, topic: Seq<char>, joined: bool) -> Seq<ActionView> {
    to.map_values(
        |p: Seq<u8>|
            if joined {
                ActionView::AnnounceSubscribe { to: p, topic }
            } else {
                ActionView::AnnounceUnsubscribe { to: p, topic }
            },
    )
}

/// The routing table without the entries of a run of identities.
pub open spec fn without_all(table: TableView, gone: Seq<Seq<u8>>) -> TableView
    decreases gone.len(),
{
    if gone.len() == 0 {
        table
    } else {
        without(without_all(table, gone.drop_last()), kad_key_bytes(gone.last()))
    }
}

/// A handshake completed: the connection is established, the peer is known
/// as one that connected and is in the routing table as seen now. A peer
/// that was not connected before is told the node's subscriptions.
pub open spec fn opened_step(node: NodeView, peer: Seq<u8>, address: Seq<u8>, now: u64) -> Step {
    Step {
        node: NodeView {
            connections: established(node.connections, peer, address, now),
            directory: upserted(
                node.directory,
                sighting(peer, address, now, Source::InboundConnection),
            ),
            routing: inserted(node.routing, routed(peer, address, now)),
            ..node
        },
        actions: if is_connected(node.connections, peer) {
            Seq::empty()
        } else {
            announcements(peer, node.overlay.subscriptions)
        },
    }
}

/// A connection closed: it leaves the table at once, what the peer announced
/// is forgotten, and the directory no longer lists the address the
/// connection had. The cause is reported.
pub open spec fn closed_step(node: NodeView, peer: Seq<u8>, cause: CloseCause) -> Step {
    let overlay = OverlayView { links: link_cut(node.overlay.links, peer), ..node.overlay };
    match position(peers(node.connections), peer) {
        Some(i) => Step {
            node: NodeView {
                connections: closed(node.connections, peer),
                overlay,
                directory: address_dropped(node.directory, peer, node.connections[i].address),
                ..node
            },
            actions: seq![
                ActionView::ReportClosed { peer, address: node.connections[i].address, cause },
            ],
        },
        None => Step { node: NodeView { overlay, ..node }, actions: Seq::empty() },
    }
}

/// A dial failed: a connection that was still connecting is gone. The peer
/// stays in the directory.
pub open spec fn dial_failed_step(node: NodeView, peer: Seq<u8>) -> Step {
    Step {
        node: NodeView { connections: abandoned(node.connections, peer), ..node },
        actions: Seq::empty(),
    }
}

/// An envelope came in: the overlay decides, and what it lets through is
/// delivered and sent on.
pub open spec fn message_step(node: NodeView, from: Seq<u8>, envelope: EnvelopeView) -> Step {
    let r = reception(node.overlay, from, envelope);
    Step {
        node: NodeView { overlay: received(node.overlay, envelope.message_id), ..node },
        actions: if r.deliver {
            seq![ActionView::Deliver { envelope }] + sends(r.forward_to, envelope)
        } else {
            sends(r.forward_to, envelope)
        },
    }
}

/// A peer advertised itself on the local network: it is known as one found
/// there and is in the routing table as seen now. Nothing is dialled. The
/// node's own advertisement changes nothing.
pub open spec fn discovered_step(node: NodeView, peer: Seq<u8>, address: Seq<u8>, now: u64) -> Step {
    if peer == node.local {
        Step { node, actions: Seq::empty() }
    } else {
        Step {
            node: NodeView {
                directory: upserted(
                    node.directory,
                    sighting(peer, address, now, Source::LocalDiscovery),
                ),
                routing: inserted(node.routing, routed(peer, address, now)),
                ..node
            },
            actions: Seq::empty(),
        }
    }
}

/// A peer announced a subscription: it is noted where the peer is
/// connected.
pub open spec fn peer_subscribed_step(node: NodeView, peer: Seq<u8>, topic: Seq<char>) -> Step {
    if is_connected(node.connections, peer) {
        Step {
            node: NodeView {
                overlay: OverlayView {
                    links: link_added(node.overlay.links, peer, topic),
                    ..node.overlay
                },
                ..node
            },
            actions: Seq::empty(),
        }
    } else {
        Step { node, actions: Seq::empty() }
    }
}

/// A peer announced that it left a topic.
pub open spec fn peer_unsubscribed_step(node: NodeView, peer: Seq<u8>, topic: Seq<char>) -> Step {
    Step {
        node: NodeView {
            overlay: OverlayView { links: link_dropped(node.overlay.links, peer, topic), ..node.overlay },
            ..node
        },
        actions: Seq::empty(),
    }
}

/// A dial was asked for: a peer without a connection gets one that is
/// connecting, and is dialled.
pub open spec fn dial_step(node: NodeView, peer: Seq<u8>, address: Seq<u8>, now: u64) -> Step {
    match position(peers(node.connections), peer) {
        Some(_) => Step { node, actions: Seq::empty() },
        None => Step {
            node: NodeView { connections: opened(node.connections, peer, address, now), ..node },
            actions: seq![ActionView::Dial { peer, address }],
        },
    }
}

/// A message is to be published: it is sealed under the node's identity and
/// next sequence number, its id is noted, and it is sent to the connected
/// peers that announced its topic.
pub open spec fn publish_step(node: NodeView, topic: Seq<char>, payload: Seq<u8>) -> Step {
    let envelope = envelope_of(topic, payload, node.local, node.overlay.sequence);
    Step {
        node: NodeView { overlay: published(node.overlay, envelope.message_id), ..node },
        actions: sends(targets(node.overlay.links, topic, None), envelope),
    }
}

/// The node subscribes to a topic: where that is new, the connected peers
/// are told.
pub open spec fn subscribe_step(node: NodeView, topic: Seq<char>) -> Step {
    if node.overlay.subscriptions.contains(topic) {
        Step { node, actions: Seq::empty() }
    } else {
        Step {
            node: NodeView {
                overlay: OverlayView {
                    subscriptions: with_topic(node.overlay.subscriptions, topic),
                    ..node.overlay
                },
                ..node
            },
            actions: broadcasts(connected(node.connections), topic, true),
        }
    }
}

/// The node leaves a topic: where it was subscribed, the connected peers
/// are told.
pub open spec fn unsubscribe_step(node: NodeView, topic: Seq<char>) -> Step {
    if !node.overlay.subscriptions.contains(topic) {
        Step { node, actions: Seq::empty() }
    } else {
        Step {
            node: NodeView {
                overlay: OverlayView {
                    subscriptions: without_topic(node.overlay.subscriptions, topic),
                    ..node.overlay
                },
                ..node
            },
            actions: broadcasts(connected(node.connections), topic, false),
        }
    }
}

/// Expiry: what local discovery found and has not heard of for longer than
/// the node's expiry time leaves the directory and the routing table.
pub open spec fn expire_step(node: NodeView, now: u64) -> Step {
    let gone = node.directory.filter(|r: RecordView| expired(r, now, node.expiry));
    Step {
        node: NodeView {
            directory: node.directory.filter(|r: RecordView| !expired(r, now, node.expiry)),
            routing: without_all(node.routing, ids(gone)),
            ..node
        },
        actions: Seq::empty(),
    }
}

/// The consistency check: records without an address and without a
/// connection leave the directory.
pub open spec fn check_step(node: NodeView) -> Step {
    Step {
        node: NodeView {
            directory: node.directory.filter(|r: RecordView| !stale(r, node.connections)),
            ..node
        },
        actions: Seq::empty(),
    }
}

/// What an event leads to. A node that was shut down takes no event.
pub open spec fn step(node: NodeView, event: EventView) -> Step {
    if !node.running {
        Step { node, actions: Seq::empty() }
    } else {
        match event {
            EventView::ConnectionOpened { peer, address, now } => opened_step(node, peer, address, now),
            EventView::ConnectionClosed { peer, cause } => closed_step(node, peer, cause),
            EventView::DialFailed { peer } => dial_failed_step(node, peer),
            EventView::MessageReceived { from, envelope } => message_step(node, from, envelope),
            EventView::PeerDiscovered { peer, address, now } => discovered_step(
                node,
                peer,
                address,
                now,
            ),
            EventView::PeerSubscribed { peer, topic } => peer_subscribed_step(node, peer, topic),
            EventView::PeerUnsubscribed { peer, topic } => peer_unsubscribed_step(node, peer, topic),
            EventView::Dial { peer, address, now } => dial_step(node, peer, address, now),
            EventView::Publish { topic, payload } => publish_step(node, topic, payload),
            EventView::Subscribe { topic } => subscribe_step(node, topic),
            EventView::Unsubscribe { topic } => unsubscribe_step(node, topic),
            EventView::Expire { now } => expire_step(node, now),
            EventView::CheckDirectory => check_step(node),
            EventView::Shutdown => Step {
                node: NodeView { running: false, ..node },
                actions: seq![ActionView::Stop],
            },
        }
    }
}

/// When the connection to a peer closes, the peer has no connection left,
/// whatever the cause.
pub proof fn law_closed_connection_is_gone(node: NodeView, peer: Seq<u8>, cause: CloseCause)
    requires
        valid_node(node),
    ensures
        position(peers(closed_step(node, peer, cause).node.connections), peer).is_none(),
        !is_connected(closed_step(node, peer, cause).node.connections, peer),
{
    let table = node.connections;
    match position(peers(table), peer) {
        Some(i) => {
            crate::index::lemma_map_remove(table, |c: ConnectionView| c.peer, i);
            lemma_remove_key(peers(table), i);
        },
        None => {},
    }
}

/// When the connection to a known peer closes and the directory's
/// consistency check follows, the peer leaves the directory where the
/// directory listed no address of it but the connection's, and stays where
/// it listed another.
pub proof fn law_closed_peer_leaves_at_check(node: NodeView, peer: Seq<u8>, cause: CloseCause)
    requires
        valid_node(node),
        position(peers(node.connections), peer).is_some(),
        position(ids(node.directory), peer).is_some(),
    ensures
        ({
            let c = position(peers(node.connections), peer).unwrap();
            let d = position(ids(node.directory), peer).unwrap();
            let address = node.connections[c].address;
            let listed = node.directory[d].addresses;
            let after = check_step(closed_step(node, peer, cause).node).node;
            &&& (forall|k: int| 0 <= k < listed.len() ==> listed[k] == address) ==> position(
                ids(after.directory),
                peer,
            ).is_none()
            &&& (exists|k: int| 0 <= k < listed.len() && listed[k] != address) ==> position(
                ids(after.directory),
                peer,
            ).is_some()
        }),
{
    broadcast use vstd::seq_lib::group_filter_ensures;
    broadcast use Seq::lemma_filter_contains_rev;

    let c = position(peers(node.connections), peer).unwrap();
    let d = position(ids(node.directory), peer).unwrap();
    let address = node.connections[c].address;
    let listed = node.directory[d].addresses;
    let mid = closed_step(node, peer, cause).node;
    let after = check_step(mid).node;
    let left = RecordView {
        addresses: crate::directory::addresses_without(listed, address),
        ..node.directory[d]
    };
    crate::index::lemma_position_valid(ids(node.directory), peer);
    crate::index::lemma_position_valid(peers(node.connections), peer);
    crate::directory::lemma_addresses_without(listed, address);
    law_closed_connection_is_gone(node, peer, cause);
    assert(mid.directory == node.directory.update(d, left));
    assert(ids(mid.directory) =~= ids(node.directory));
    if forall|k: int| 0 <= k < listed.len() ==> listed[k] == address {
        if left.addresses.len() > 0 {
            assert(left.addresses.contains(left.addresses[0]));
            let k = listed.index_of(left.addresses[0]);
            assert(listed[k] == address);
        }
        assert(stale(left, mid.connections));
        if ids(after.directory).contains(peer) {
            let j = ids(after.directory).index_of(peer);
            let found = after.directory[j];
            assert(after.directory.contains(found));
            assert(mid.directory.contains(found));
            let m = mid.directory.index_of(found);
            assert(ids(mid.directory)[m] == peer);
            assert(ids(mid.directory)[d] == peer);
            assert(m == d);
            assert(!stale(found, mid.connections));
            assert(false);
        }
    }
    if exists|k: int| 0 <= k < listed.len() && listed[k] != address {
        let k = choose|k: int| 0 <= k < listed.len() && listed[k] != address;
        assert(listed.contains(listed[k]));
        assert(left.addresses.contains(listed[k]));
        assert(left.addresses.len() > 0);
        assert(!stale(mid.directory[d], mid.connections));
        assert(after.directory.contains(mid.directory[d]));
        let j = after.directory.index_of(left);
        assert(ids(after.directory)[j] == peer);
    }
}

/// No event takes the last-seen time of a peer back: a peer that the
/// directory knows before and after an event was seen, after it, no earlier
/// than before.
pub proof fn law_time_never_goes_back(node: NodeView, event: EventView, identity: Seq<u8>)
    requires
        valid_node(node),
        seen_at(node.directory, identity).is_some(),
        seen_at(step(node, event).node.directory, identity).is_some(),
    ensures
        seen_at(step(node, event).node.directory, identity).unwrap() >= seen_at(
            node.directory,
            identity,
        ).unwrap(),
{
    let records = node.directory;
    if node.running {
        match event {
            EventView::ConnectionOpened { peer, address, now } => {
                law_upsert_keeps_time(
                    records,
                    sighting(peer, address, now, Source::InboundConnection),
                    identity,
                );
            },
            EventView::ConnectionClosed { peer, cause } => {
                match position(peers(node.connections), peer) {
                    Some(i) => {
                        lemma_address_dropped_seen(records, peer, node.connections[i].address, identity);
                    },
                    None => {},
                }
            },
            EventView::PeerDiscovered { peer, address, now } => {
                if peer != node.local {
                    law_upsert_keeps_time(
                        records,
                        sighting(peer, address, now, Source::LocalDiscovery),
                        identity,
                    );
                }
            },
            EventView::Expire { now } => {
                lemma_filter_seen(records, |r: RecordView| !expired(r, now, node.expiry), identity);
            },
            EventView::CheckDirectory => {
                lemma_filter_seen(records, |r: RecordView| !stale(r, node.connections), identity);
            },
            _ => {},
        }
    }
}

/// The node after a peer of the bootstrap list was seeded at `now`: the peer
/// is known as a bootstrap peer and is in the routing table. An entry that
/// names the node itself changes nothing.
pub open spec fn seeded(node: NodeView, entry: BootEntry, now: u64) -> NodeView {
    if entry.identity == node.local {
        node
    } else {
        NodeView {
            directory: upserted(
                node.directory,
                sighting(entry.identity, entry.address, now, Source::Bootstrap),
            ),
            routing: inserted(node.routing, routed(entry.identity, entry.address, now)),
            ..node
        }
    }
}

/// Whether a close that leaves `remaining` connections to its peer ends the
/// peer's connection: only the close of the last one does.
pub open spec fn last_close(remaining: u32) -> bool {
    remaining == 0
}

/// The ids of a list of envelopes, in its order.
pub open spec fn envelope_ids(envelopes: Seq<EnvelopeView>) -> Seq<u64> {
    envelopes.map_values(|e: EnvelopeView| e.message_id)
}

/// The views of a list of envelopes.
pub open spec fn envelope_views(envelopes: Seq<Envelope>) -> Seq<EnvelopeView> {
    envelopes.map_values(|e: Envelope| e@)
}

/// What a transport that fans out by itself is handed of a list of actions:
/// the envelopes that the node `local` itself published and is to send, in
/// the order of their first send action, each id once. An envelope of
/// another origin is not handed over: the transport forwards it by itself.
pub open spec fn handed_over(local: Seq<u8>, actions: Seq<ActionView>) -> Seq<EnvelopeView>
    decreases actions.len(),
{
    if actions.len() == 0 {
        Seq::empty()
    } else {
        let before = handed_over(local, actions.drop_last());
        match actions.last() {
            ActionView::Send { to, envelope } => if envelope.origin == local && !envelope_ids(
                before,
            ).contains(envelope.message_id) {
                before.push(envelope)
            } else {
                before
            },
            _ => before,
        }
    }
}

/// The node after a run of bootstrap peers was seeded, one after the other.
pub open spec fn seeded_all(node: NodeView, entries: Seq<BootEntry>, now: u64) -> NodeView
    decreases entries.len(),
{
    if entries.len() == 0 {
        node
    } else {
        seeded(seeded_all(node, entries.drop_last(), now), entries.last(), now)
    }
}

/// Adds, for each peer, the action that sends it the envelope.
fn send_each(actions: &mut Vec<Action>, to: &Vec<PeerIdentity>, envelope: &Envelope)
    ensures
        action_views(final(actions)@) == action_views(old(actions)@) + sends(peer_views(to@), envelope@),
{
    let ghost start = action_views(actions@);
    let ghost all = peer_views(to@);
    let mut i: usize = 0;
    proof {
        assert(action_views(actions@) =~= start + sends(all.take(0), envelope@));
    }
    while i < to.len()
        invariant
            i <= to@.len(),
            all == peer_views(to@),
            action_views(actions@) == start + sends(all.take(i as int), envelope@),
        decreases to@.len() - i,
    {
        let action = Action::Send { to: to[i].clone(), envelope: envelope.clone() };
        proof {
            lemma_map_push(actions@, |a: Action| a@, action);
            assert((start + sends(all.take(i as int), envelope@)).push(action@) =~= start + sends(
                all.take(i + 1),
                envelope@,
            ));
        }
        actions.push(action);
        i += 1;
    }
    proof {
        assert(all.take(all.len() as int) =~= all);
    }
}

/// The actions that tell one peer each of the topics.
fn announce_topics(to: &PeerIdentity, topics: &Vec<String>) -> (actions: Vec<Action>)
    ensures
        action_views(actions@) == announcements(to@, topic_views(topics@)),
{
    let mut actions: Vec<Action> = Vec::new();
    let ghost all = topic_views(topics@);
    let mut i: usize = 0;
    proof {
        assert(action_views(actions@) =~= announcements(to@, all.take(0)));
    }
    while i < topics.len()
        invariant
            i <= topics@.len(),
            all == topic_views(topics@),
            action_views(actions@) == announcements(to@, all.take(i as int)),
        decreases topics@.len() - i,
    {
        let action = Action::AnnounceSubscribe { to: to.clone(), topic: topics[i].clone() };
        proof {
            lemma_map_push(actions@, |a: Action| a@, action);
            assert(announcements(to@, all.take(i as int)).push(action@) =~= announcements(
                to@,
                all.take(i + 1),
            ));
        }
        actions.push(action);
        i += 1;
    }
    proof {
        assert(all.take(all.len() as int) =~= all);
    }
    actions
}

/// The actions that tell each peer that the node joined, or left, a topic.
fn announce_to_peers(to: &Vec<PeerIdentity>, topic: &String, joined: bool) -> (actions: Vec<Action>)
    ensures
        action_views(actions@) == broadcasts(peer_views(to@), topic@, joined),
{
    let mut actions: Vec<Action> = Vec::new();
    let ghost all = peer_views(to@);
    let mut i: usize = 0;
    proof {
        assert(action_views(actions@) =~= broadcasts(all.take(0), topic@, joined));
    }
    while i < to.len()
        invariant
            i <= to@.len(),
            all == peer_views(to@),
            action_views(actions@) == broadcasts(all.take(i as int), topic@, joined),
        decreases to@.len() - i,
    {
        let action = if joined {
            Action::AnnounceSubscribe { to: to[i].clone(), topic: topic.clone() }
        } else {
            Action::AnnounceUnsubscribe { to: to[i].clone(), topic: topic.clone() }
        };
        proof {
            lemma_map_push(actions@, |a: Action| a@, action);
            assert(broadcasts(all.take(i as int), topic@, joined).push(action@) =~= broadcasts(
                all.take(i + 1),
                topic@,
                joined,
            ));
        }
        actions.push(action);
        i += 1;
    }
    proof {
        assert(all.take(all.len() as int) =~= all);
    }
    actions
}

/// The record that a sighting of a peer makes.
fn sighting_record(
    peer: PeerIdentity,
    address: PeerAddress,
    now: u64,
    source: Source,
) -> (record: PeerRecord)
    ensures
        record@ == sighting(peer@, address@, now, source),
{
    let mut addresses: Vec<PeerAddress> = Vec::new();
    addresses.push(address);
    let record = PeerRecord { identity: peer, addresses, last_seen: now, source };
    assert(record@.addresses =~= seq![address@]);
    record
}

/// Whether a close that leaves `remaining` connections to its peer ends the
/// peer's connection, and so is an event for the node.
pub fn is_last_close(remaining: u32) -> (r: bool)
    ensures
        r == last_close(remaining),
{
    remaining == 0
}

/// Whether a list of envelopes holds one with the given id.
fn holds_id(envelopes: &Vec<Envelope>, id: u64) -> (r: bool)
    ensures
        r == envelope_ids(envelope_views(envelopes@)).contains(id),
{
    let ghost ids = envelope_ids(envelope_views(envelopes@));
    let mut i: usize = 0;
    while i < envelopes.len()
        invariant
            i <= envelopes@.len(),
            ids == envelope_ids(envelope_views(envelopes@)),
            forall|j: int| 0 <= j < i ==> ids[j] != id,
        decreases envelopes@.len() - i,
    {
        if envelopes[i].message_id() == id {
            assert(ids[i as int] == id);
            return true;
        }
        i += 1;
    }
    false
}

/// What a transport that fans out by itself is handed of the actions that
/// an event led to: the envelopes that the node `local` itself published and
/// is to send, in the order of their first send action, each id once.
pub fn to_hand_over(local: &PeerIdentity, actions: &Vec<Action>) -> (out: Vec<Envelope>)
    ensures
        envelope_views(out@) == handed_over(local@, action_views(actions@)),
{
    let ghost all = action_views(actions@);
    let mut out: Vec<Envelope> = Vec::new();
    let mut i: usize = 0;
    proof {
        assert(all.take(0) =~= Seq::<ActionView>::empty());
        assert(envelope_views(out@) =~= handed_over(local@, all.take(0)));
    }
    while i < actions.len()
        invariant
            i <= actions@.len(),
            all == action_views(actions@),
            envelope_views(out@) == handed_over(local@, all.take(i as int)),
        decreases actions@.len() - i,
    {
        proof {
            assert(all.take(i + 1).drop_last() =~= all.take(i as int));
            assert(all.take(i + 1).last() == actions@[i as int]@);
        }
        match &actions[i] {
            Action::Send { to, envelope } => {
                if envelope.origin().same(local) && !holds_id(&out, envelope.message_id()) {
                    let copy = envelope.clone();
                    proof {
                        lemma_map_push(out@, |e: Envelope| e@, copy);
                    }
                    out.push(copy);
                }
            },
            _ => {},
        }
        i += 1;
    }
    proof {
        assert(all.take(all.len() as int) =~= all);
    }
    out
}

/// What the node shows of itself to readers outside the loop.
#[derive(Debug, PartialEq, Eq)]
pub struct NodeSnapshot {
    /// The records of the peers with an established connection.
    pub connected: Vec<PeerRecord>,
    /// The records of the peers that are known but not connected.
    pub unconnected: Vec<PeerRecord>,
    /// The topics the node subscribes to.
    pub subscriptions: Vec<String>,
}

/// A node of the overlay.
#[derive(Debug)]
pub struct Node {
    local: PeerIdentity,
    directory: PeerDirectory,
    routing: RoutingTable,
    overlay: TopicOverlay,
    connections: ConnectionTable,
    expiry: u64,
    running: bool,
}

impl View for Node {
    type V = NodeView;

    closed spec fn view(&self) -> NodeView {
        NodeView {
            local: self.local@,
            directory: self.directory@,
            routing: self.routing@,
            overlay: self.overlay@,
            connections: self.connections@,
            expiry: self.expiry,
            running: self.running,
        }
    }
}

impl Node {
    /// The node's invariant.
    pub open spec fn wf(&self) -> bool {
        valid_node(self@)
    }

    /// A running node that knows no peer, has no connection and subscribes
    /// to nothing; `None` where no node can be made with the settings.
    pub fn new(local: PeerIdentity, config: Config) -> (r: Option<Self>)
        ensures
            r.is_some() == config.valid(),
            r matches Some(node) ==> node.wf() && node@ == fresh_node(local@, config),
    {
        let key = RoutingKey::of(&local);
        match (RoutingTable::new(key, config.bucket_capacity), TopicOverlay::new(config.window)) {
            (Some(routing), Some(overlay)) => {
                let node = Node {
                    local,
                    directory: PeerDirectory::new(),
                    routing,
                    overlay,
                    connections: ConnectionTable::new(),
                    expiry: config.expiry,
                    running: true,
                };
                proof {
                    assert(ids(node@.directory) =~= Seq::<Seq<u8>>::empty());
                    assert(peers(node@.connections) =~= Seq::<Seq<u8>>::empty());
                }
                Some(node)
            },
            _ => None,
        }
    }

    /// The node's identity.
    pub fn local(&self) -> (id: &PeerIdentity)
        ensures
            id@ == self@.local,
    {
        &self.local
    }

    /// Whether the node still takes events.
    pub fn is_running(&self) -> (r: bool)
        ensures
            r == self@.running,
    {
        self.running
    }

    /// The peer directory.
    pub fn directory(&self) -> (dir: &PeerDirectory)
        ensures
            dir@ == self@.directory,
    {
        &self.directory
    }

    /// The routing table.
    pub fn routing(&self) -> (table: &RoutingTable)
        ensures
            table@ == self@.routing,
    {
        &self.routing
    }

    /// The topic overlay.
    pub fn overlay(&self) -> (overlay: &TopicOverlay)
        ensures
            overlay@ == self@.overlay,
    {
        &self.overlay
    }

    /// The connection table.
    pub fn connections(&self) -> (table: &ConnectionTable)
        ensures
            table@ == self@.connections,
    {
        &self.connections
    }

    /// What the node shows to readers outside the loop: the records of the
    /// connected peers, those of the others, and the node's subscriptions.
    pub fn snapshot(&self) -> (snap: NodeSnapshot)
        requires
            self.wf(),
        ensures
            views(snap.connected@) == self@.directory.filter(
                |r: RecordView| is_connected(self@.connections, r.identity),
            ),
            views(snap.unconnected@) == self@.directory.filter(
                |r: RecordView| !is_connected(self@.connections, r.identity),
            ),
            topic_views(snap.subscriptions@) == self@.overlay.subscriptions,
    {
        let DirectorySnapshot { connected, unconnected } = self.directory.snapshot(&self.connections);
        NodeSnapshot { connected, unconnected, subscriptions: self.overlay.subscriptions() }
    }

    /// Seeds the peers of a bootstrap list, in the list's order, as seen at
    /// `now`: each is then known as a bootstrap peer and is in the routing
    /// table. An entry that names the node itself is left out.
    pub fn seed(&mut self, nodes: &Vec<Bootnode>, now: u64)
        requires
            old(self).wf(),
        ensures
            final(self).wf(),
            final(self)@ == seeded_all(old(self)@, nodes@.map_values(|n: Bootnode| n@), now),
    {
        let ghost entries = nodes@.map_values(|n: Bootnode| n@);
        let mut i: usize = 0;
        while i < nodes.len()
            invariant
                i <= nodes@.len(),
                entries == nodes@.map_values(|n: Bootnode| n@),
                self.wf(),
                self@ == seeded_all(old(self)@, entries.take(i as int), now),
            decreases nodes@.len() - i,
        {
            let ghost before = self@;
            proof {
                assert(entries.take(i + 1).drop_last() =~= entries.take(i as int));
                assert(entries.take(i + 1).last() == nodes@[i as int]@);
            }
            let peer = nodes[i].peer_id().clone();
            let address = nodes[i].multiaddr().clone();
            if !peer.same(&self.local) {
                let record = sighting_record(peer.clone(), address.clone(), now, Source::Bootstrap);
                self.directory.upsert(record);
                self.routing.add_address(peer, address, now);
            }
            i += 1;
        }
        proof {
            assert(entries.take(entries.len() as int) =~= entries);
        }
    }

    /// Handles a completed handshake.
    fn on_opened(&mut self, peer: PeerIdentity, address: PeerAddress, now: u64) -> (actions: Vec<Action>)
        requires
            old(self).wf(),
        ensures
            final(self).wf(),
            final(self)@ == opened_step(old(self)@, peer@, address@, now).node,
            action_views(actions@) == opened_step(old(self)@, peer@, address@, now).actions,
    {
        let ghost before = self@;
        let fresh = self.connections.establish(peer.clone(), address.clone(), now);
        let record = sighting_record(peer.clone(), address.clone(), now, Source::InboundConnection);
        self.directory.upsert(record);
        self.routing.add_address(peer.clone(), address, now);
        proof {
            assert forall|i: int| 0 <= i < self@.overlay.links.len() implies is_connected(
                self@.connections,
                (#[trigger] self@.overlay.links[i]).peer,
            ) by {
                let other = self@.overlay.links[i].peer;
                assert(is_connected(before.connections, before.overlay.links[i].peer));
                if other != peer@ {
                    lemma_others_unchanged(before.connections, peer@, address@, now, other);
                }
            }
        }
        if fresh {
            let topics = self.overlay.subscriptions();
            announce_topics(&peer, &topics)
        } else {
            let actions: Vec<Action> = Vec::new();
            assert(action_views(actions@) =~= Seq::<ActionView>::empty());
            actions
        }
    }

    /// Handles a closed connection.
    fn on_closed(&mut self, peer: PeerIdentity, cause: CloseCause) -> (actions: Vec<Action>)
        requires
            old(self).wf(),
        ensures
            final(self).wf(),
            final(self)@ == closed_step(old(self)@, peer@, cause).node,
            action_views(actions@) == closed_step(old(self)@, peer@, cause).actions,
    {
        let ghost before = self@;
        let gone = self.connections.close(&peer);
        self.overlay.forget_peer(&peer);
        let mut actions: Vec<Action> = Vec::new();
        match gone {
            Some(state) => {
                self.directory.forget_address(&peer, &state.address);
                let action = Action::ReportClosed { peer, address: state.address, cause };
                actions.push(action);
                proof {
                    assert(action_views(actions@) =~= seq![action@]);
                }
            },
            None => {
                proof {
                    assert(action_views(actions@) =~= Seq::<ActionView>::empty());
                }
            },
        }
        proof {
            assert forall|i: int| 0 <= i < self@.overlay.links.len() implies is_connected(
                self@.connections,
                (#[trigger] self@.overlay.links[i]).peer,
            ) by {
                let link = self@.overlay.links[i];
                assert(link_peers(self@.overlay.links)[i] == link.peer);
                assert(link.peer != peer@);
                match position(link_peers(before.overlay.links), peer@) {
                    Some(p) => {
                        let i0 = if i < p { i } else { i + 1 };
                        assert(link == before.overlay.links[i0]);
                    },
                    None => {
                        assert(link == before.overlay.links[i]);
                    },
                }
                lemma_others_unchanged(before.connections, peer@, Seq::empty(), 0, link.peer);
            }
        }
        actions
    }

    /// Handles a failed dial.
    fn on_dial_failed(&mut self, peer: PeerIdentity) -> (actions: Vec<Action>)
        requires
            old(self).wf(),
        ensures
            final(self).wf(),
            final(self)@ == dial_failed_step(old(self)@, peer@).node,
            action_views(actions@) == dial_failed_step(old(self)@, peer@).actions,
    {
        let ghost before = self@;
        self.connections.abandon(&peer);
        proof {
            assert forall|i: int| 0 <= i < self@.overlay.links.len() implies is_connected(
                self@.connections,
                (#[trigger] self@.overlay.links[i]).peer,
            ) by {
                let other = self@.overlay.links[i].peer;
                assert(is_connected(before.connections, before.overlay.links[i].peer));
                if other != peer@ {
                    lemma_others_unchanged(before.connections, peer@, Seq::empty(), 0, other);
                }
            }
        }
        let actions: Vec<Action> = Vec::new();
        assert(action_views(actions@) =~= Seq::<ActionView>::empty());
        actions
    }

    /// Handles an envelope that came in.
    fn on_message(&mut self, from: PeerIdentity, envelope: Envelope) -> (actions: Vec<Action>)
        requires
            old(self).wf(),
        ensures
            final(self).wf(),
            final(self)@ == message_step(old(self)@, from@, envelope@).node,
            action_views(actions@) == message_step(old(self)@, from@, envelope@).actions,
    {
        let r = self.overlay.receive(&from, &envelope);
        let mut actions: Vec<Action> = Vec::new();
        if r.deliver {
            let action = Action::Deliver { envelope: envelope.clone() };
            actions.push(action);
            proof {
                assert(action_views(actions@) =~= seq![action@]);
            }
        } else {
            proof {
                assert(action_views(actions@) =~= Seq::<ActionView>::empty());
            }
        }
        let ghost first = action_views(actions@);
        send_each(&mut actions, &r.forward_to, &envelope);
        proof {
            if !r.deliver {
                assert(first + sends(r@.forward_to, envelope@) =~= sends(r@.forward_to, envelope@));
            }
        }
        actions
    }

    /// Handles an advertisement from the local network.
    fn on_discovered(
        &mut self,
        peer: PeerIdentity,
        address: PeerAddress,
        now: u64,
    ) -> (actions: Vec<Action>)
        requires
            old(self).wf(),
        ensures
            final(self).wf(),
            final(self)@ == discovered_step(old(self)@, peer@, address@, now).node,
            action_views(actions@) == discovered_step(old(self)@, peer@, address@, now).actions,
    {
        if !peer.same(&self.local) {
            let record = sighting_record(peer.clone(), address.clone(), now, Source::LocalDiscovery);
            self.directory.upsert(record);
            self.routing.add_address(peer, address, now);
        }
        let actions: Vec<Action> = Vec::new();
        assert(action_views(actions@) =~= Seq::<ActionView>::empty());
        actions
    }

    /// Handles a peer's announcement that it subscribed to a topic.
    fn on_peer_subscribed(&mut self, peer: PeerIdentity, topic: String) -> (actions: Vec<Action>)
        requires
            old(self).wf(),
        ensures
            final(self).wf(),
            final(self)@ == peer_subscribed_step(old(self)@, peer@, topic@).node,
            action_views(actions@) == peer_subscribed_step(old(self)@, peer@, topic@).actions,
    {
        let ghost before = self@;
        if self.connections.is_established(&peer) {
            self.overlay.peer_subscribed(peer, topic);
            proof {
                assert forall|i: int| 0 <= i < self@.overlay.links.len() implies is_connected(
                    self@.connections,
                    (#[trigger] self@.overlay.links[i]).peer,
                ) by {
                    if i < before.overlay.links.len() {
                        assert(self@.overlay.links[i].peer == before.overlay.links[i].peer);
                    }
                }
            }
        }
        let actions: Vec<Action> = Vec::new();
        assert(action_views(actions@) =~= Seq::<ActionView>::empty());
        actions
    }

    /// Handles a peer's announcement that it left a topic.
    fn on_peer_unsubscribed(&mut self, peer: PeerIdentity, topic: String) -> (actions: Vec<Action>)
        requires
            old(self).wf(),
        ensures
            final(self).wf(),
            final(self)@ == peer_unsubscribed_step(old(self)@, peer@, topic@).node,
            action_views(actions@) == peer_unsubscribed_step(old(self)@, peer@, topic@).actions,
    {
        let ghost before = self@;
        self.overlay.peer_unsubscribed(&peer, &topic);
        proof {
            assert forall|i: int| 0 <= i < self@.overlay.links.len() implies is_connected(
                self@.connections,
                (#[trigger] self@.overlay.links[i]).peer,
            ) by {
                assert(self@.overlay.links[i].peer == before.overlay.links[i].peer);
            }
        }
        let actions: Vec<Action> = Vec::new();
        assert(action_views(actions@) =~= Seq::<ActionView>::empty());
        actions
    }

    /// Handles the command to dial a peer.
    fn on_dial(&mut self, peer: PeerIdentity, address: PeerAddress, now: u64) -> (actions: Vec<Action>)
        requires
            old(self).wf(),
        ensures
            final(self).wf(),
            final(self)@ == dial_step(old(self)@, peer@, address@, now).node,
            action_views(actions@) == dial_step(old(self)@, peer@, address@, now).actions,
    {
        let ghost before = self@;
        let mut actions: Vec<Action> = Vec::new();
        let created = self.connections.open(peer.clone(), address.clone(), now);
        proof {
            assert forall|i: int| 0 <= i < self@.overlay.links.len() implies is_connected(
                self@.connections,
                (#[trigger] self@.overlay.links[i]).peer,
            ) by {
                let other = self@.overlay.links[i].peer;
                assert(is_connected(before.connections, before.overlay.links[i].peer));
                if other != peer@ {
                    lemma_others_unchanged(before.connections, peer@, address@, now, other);
                }
            }
        }
        if created {
            let action = Action::Dial { peer, address };
            actions.push(action);
            proof {
                assert(action_views(actions@) =~= seq![action@]);
            }
        } else {
            proof {
                assert(action_views(actions@) =~= Seq::<ActionView>::empty());
            }
        }
        actions
    }

    /// Handles the command to publish a message.
    fn on_publish(&mut self, topic: String, payload: Vec<u8>) -> (actions: Vec<Action>)
        requires
            old(self).wf(),
        ensures
            final(self).wf(),
            final(self)@ == publish_step(old(self)@, topic@, payload@).node,
            action_views(actions@) == publish_step(old(self)@, topic@, payload@).actions,
    {
        let origin = self.local.clone();
        let out = self.overlay.publish(topic, payload, origin);
        let mut actions: Vec<Action> = Vec::new();
        proof {
            assert(action_views(actions@) =~= Seq::<ActionView>::empty());
        }
        send_each(&mut actions, &out.recipients, &out.envelope);
        proof {
            assert(Seq::<ActionView>::empty() + sends(peer_views(out.recipients@), out.envelope@)
                =~= sends(peer_views(out.recipients@), out.envelope@));
        }
        actions
    }

    /// Handles the command to subscribe to a topic.
    fn on_subscribe(&mut self, topic: String) -> (actions: Vec<Action>)
        requires
            old(self).wf(),
        ensures
            final(self).wf(),
            final(self)@ == subscribe_step(old(self)@, topic@).node,
            action_views(actions@) == subscribe_step(old(self)@, topic@).actions,
    {
        let told = topic.clone();
        if self.overlay.subscribe(topic) {
            let to = self.connections.connected_peers();
            announce_to_peers(&to, &told, true)
        } else {
            let actions: Vec<Action> = Vec::new();
            assert(action_views(actions@) =~= Seq::<ActionView>::empty());
            actions
        }
    }

    /// Handles the command to leave a topic.
    fn on_unsubscribe(&mut self, topic: String) -> (actions: Vec<Action>)
        requires
            old(self).wf(),
        ensures
            final(self).wf(),
            final(self)@ == unsubscribe_step(old(self)@, topic@).node,
            action_views(actions@) == unsubscribe_step(old(self)@, topic@).actions,
    {
        if self.overlay.unsubscribe(&topic) {
            let to = self.connections.connected_peers();
            announce_to_peers(&to, &topic, false)
        } else {
            let actions: Vec<Action> = Vec::new();
            assert(action_views(actions@) =~= Seq::<ActionView>::empty());
            actions
        }
    }

    /// Handles the expiry of what local discovery found.
    fn on_expire(&mut self, now: u64) -> (actions: Vec<Action>)
        requires
            old(self).wf(),
        ensures
            final(self).wf(),
            final(self)@ == expire_step(old(self)@, now).node,
            action_views(actions@) == expire_step(old(self)@, now).actions,
    {
        let ghost before = self@;
        let gone = self.directory.expire(now, self.expiry);
        let ghost names = ids(views(gone@));
        let mut i: usize = 0;
        while i < gone.len()
            invariant
                i <= gone@.len(),
                names == ids(views(gone@)),
                self.wf(),
                self@ == (NodeView {
                    routing: without_all(before.routing, names.take(i as int)),
                    ..self@
                }),
                self@ == (NodeView { routing: self@.routing, directory: self@.directory, ..before }),
                self@.directory == before.directory.filter(
                    |r: RecordView| !expired(r, now, before.expiry),
                ),
            decreases gone@.len() - i,
        {
            proof {
                assert(names.take(i + 1).drop_last() =~= names.take(i as int));
                assert(names.take(i + 1).last() == gone@[i as int].identity@);
            }
            let key = RoutingKey::of(&gone[i].identity);
            self.routing.remove(&key);
            i += 1;
        }
        proof {
            assert(names.take(names.len() as int) =~= names);
        }
        let actions: Vec<Action> = Vec::new();
        assert(action_views(actions@) =~= Seq::<ActionView>::empty());
        actions
    }

    /// Handles the directory's consistency check.
    fn on_check(&mut self) -> (actions: Vec<Action>)
        requires
            old(self).wf(),
        ensures
            final(self).wf(),
            final(self)@ == check_step(old(self)@).node,
            action_views(actions@) == check_step(old(self)@).actions,
    {
        self.directory.prune(&self.connections);
        let actions: Vec<Action> = Vec::new();
        assert(action_views(actions@) =~= Seq::<ActionView>::empty());
        actions
    }

    /// Takes one event: changes the node's state as the event asks and
    /// returns the actions to carry out, in order. A node that was shut down
    /// takes no event: it stays as it is and asks for nothing.
    pub fn handle_event(&mut self, event: Event) -> (actions: Vec<Action>)
        requires
            old(self).wf(),
        ensures
            final(self).wf(),
            final(self)@ == step(old(self)@, event@).node,
            action_views(actions@) == step(old(self)@, event@).actions,
    {
        if !self.running {
            let actions: Vec<Action> = Vec::new();
            assert(action_views(actions@) =~= Seq::<ActionView>::empty());
            return actions;
        }
        match event {
            Event::ConnectionOpened { peer, address, now } => self.on_opened(peer, address, now),
            Event::ConnectionClosed { peer, cause } => self.on_closed(peer, cause),
            Event::DialFailed { peer } => self.on_dial_failed(peer),
            Event::MessageReceived { from, envelope } => self.on_message(from, envelope),
            Event::PeerDiscovered { peer, address, now } => self.on_discovered(peer, address, now),
            Event::PeerSubscribed { peer, topic } => self.on_peer_subscribed(peer, topic),
            Event::PeerUnsubscribed { peer, topic } => self.on_peer_unsubscribed(peer, topic),
            Event::Dial { peer, address, now } => self.on_dial(peer, address, now),
            Event::Publish { topic, payload } => self.on_publish(topic, payload),
            Event::Subscribe { topic } => self.on_subscribe(topic),
            Event::Unsubscribe { topic } => self.on_unsubscribe(topic),
            Event::Expire { now } => self.on_expire(now),
            Event::CheckDirectory => self.on_check(),
            Event::Shutdown => {
                self.running = false;
                let mut actions: Vec<Action> = Vec::new();
                actions.push(Action::Stop);
                assert(action_views(actions@) =~= seq![ActionView::Stop]);
                actions
            },
        }
    }

    /// The `n` known peers nearest to `target` in the routing keyspace,
    /// nearest first and each once.
    pub fn closest_peers(&self, target: &PeerIdentity, n: usize) -> (near: Vec<RoutingEntry>)
        requires
            self.wf(),
        ensures
            near@.len() == if n <= crate::routing::total(self@.routing.buckets) {
                n as nat
            } else {
                crate::routing::total(self@.routing.buckets)
            },
            crate::routing::nearest_first(kad_key_bytes(target@), entry_views(near@)),
            crate::routing::identities(entry_views(near@)).no_duplicates(),
            forall|i: int|
                0 <= i < near@.len() ==> crate::routing::holds(
                    self@.routing,
                    #[trigger] entry_views(near@)[i],
                ),
            forall|e: EntryView, i: int|
                #![trigger crate::routing::holds(self@.routing, e), entry_views(near@)[i]]
                crate::routing::holds(self@.routing, e) && !entry_views(near@).contains(e) && 0 <= i
                    < near@.len() ==> crate::keyspace::distance(
                    kad_key_bytes(target@),
                    entry_views(near@)[i].key,
                ) <= crate::keyspace::distance(kad_key_bytes(target@), e.key),
    {
        self.routing.closest_peers(target, n)
    }
}

} // verus!
