//! The topic overlay: subscriptions, envelopes and duplicate suppression.
//!
//! A message travels in an envelope whose id is a hash of its content. The
//! overlay remembers the ids it has met in a window of bounded size, oldest
//! first, and lets an envelope through only while its id is not in the
//! window.
//!
//! The hash is the 64-bit FNV-1a fold, taken over whole words: each part's
//! length, then its bytes one by one, and last the sequence number.

use crate::identity::PeerIdentity;
use crate::index::{
    lemma_map_push, lemma_map_remove, lemma_map_update, lemma_position_at, lemma_push_fresh,
    lemma_remove_key, position,
};
use vstd::prelude::*;
use vstd::string::*;
use vstd::utf8::encode_utf8;

verus! {

/// The size of the suppression window unless the overlay is made with
/// another.
pub const DEFAULT_WINDOW: usize = 1024;

/// The value from which an id's hash starts: FNV-1a's offset basis.
pub const HASH_OFFSET: u64 = 0xcbf29ce484222325;

/// The factor by which each step of the hash multiplies: FNV-1a's prime.
pub const HASH_PRIME: u64 = 0x100000001b3;

/// One step of the hash: `word` is folded into `h`.
pub open spec fn mix(h: u64, word: u64) -> u64 {
    (h ^ word).wrapping_mul(HASH_PRIME)
}

/// The hash `h` after a byte string was folded in, byte by byte.
pub open spec fn absorb(h: u64, bytes: Seq<u8>) -> u64
    decreases bytes.len(),
{
    if bytes.len() == 0 {
        h
    } else {
        mix(absorb(h, bytes.drop_last()), bytes.last() as u64)
    }
}

/// The hash `h` after a byte string was folded in behind its length.
pub open spec fn absorb_framed(h: u64, bytes: Seq<u8>) -> u64 {
    absorb(mix(h, bytes.len() as u64), bytes)
}

/// The id of the message that `origin` published as its `sequence`-th, on
/// `topic`, with `payload`: the hash of the topic's UTF-8 bytes, the payload
/// and the origin's bytes, each behind its length, and the sequence number.
pub open spec fn message_id_of(
    topic: Seq<char>,
    payload: Seq<u8>,
    origin: Seq<u8>,
    sequence: u64,
) -> u64 {
    let after_topic = absorb_framed(HASH_OFFSET, encode_utf8(topic));
    let after_payload = absorb_framed(after_topic, payload);
    let after_origin = absorb_framed(after_payload, origin);
    mix(after_origin, sequence)
}

/// Folds one word into a hash.
fn mix_word(h: u64, word: u64) -> (r: u64)
    ensures
        r == mix(h, word),
{
    (h ^ word).wrapping_mul(HASH_PRIME)
}

/// Folds a byte string, behind its length, into a hash.
fn absorb_bytes(h: u64, bytes: &[u8]) -> (r: u64)
    ensures
        r == absorb_framed(h, bytes@),
{
    let mut acc = mix_word(h, bytes.len() as u64);
    let ghost start = acc;
    let mut i: usize = 0;
    while i < bytes.len()
        invariant
            i <= bytes@.len(),
            acc == absorb(start, bytes@.take(i as int)),
        decreases bytes@.len() - i,
    {
        proof {
            assert(bytes@.take(i + 1).drop_last() =~= bytes@.take(i as int));
        }
        acc = mix_word(acc, bytes[i] as u64);
        i += 1;
    }
    proof {
        assert(bytes@.take(bytes@.len() as int) =~= bytes@);
    }
    acc
}

/// Computes a message id from the message's content.
pub fn message_id(topic: &str, payload: &[u8], origin: &PeerIdentity, sequence: u64) -> (id: u64)
    ensures
        id == message_id_of(topic@, payload@, origin@, sequence),
{
    let h = absorb_bytes(HASH_OFFSET, topic.as_bytes());
    let h = absorb_bytes(h, payload);
    let h = absorb_bytes(h, origin.as_bytes());
    mix_word(h, sequence)
}

/// A message on its way through the overlay.
#[derive(Debug, PartialEq, Eq)]
pub struct Envelope {
    topic: String,
    payload: Vec<u8>,
    origin: PeerIdentity,
    sequence: u64,
    message_id: u64,
}

/// An envelope as the contracts speak of it.
pub struct EnvelopeView {
    pub topic: Seq<char>,
    pub payload: Seq<u8>,
    pub origin: Seq<u8>,
    pub sequence: u64,
    pub message_id: u64,
}

impl View for Envelope {
    type V = EnvelopeView;

    closed spec fn view(&self) -> EnvelopeView {
        EnvelopeView {
            topic: self.topic@,
            payload: self.payload@,
            origin: self.origin@,
            sequence: self.sequence,
            message_id: self.message_id,
        }
    }
}

/// Whether an envelope's id is the hash of its content.
pub open spec fn sealed(envelope: EnvelopeView) -> bool {
    envelope.message_id == message_id_of(
        envelope.topic,
        envelope.payload,
        envelope.origin,
        envelope.sequence,
    )
}

/// The envelope of a message, sealed.
pub open spec fn envelope_of(
    topic: Seq<char>,
    payload: Seq<u8>,
    origin: Seq<u8>,
    sequence: u64,
) -> EnvelopeView {
    EnvelopeView {
        topic,
        payload,
        origin,
        sequence,
        message_id: message_id_of(topic, payload, origin, sequence),
    }
}

/// Two sealed envelopes with the same topic, payload, origin and sequence
/// number have the same id.
pub proof fn law_same_content_same_id(a: EnvelopeView, b: EnvelopeView)
    requires
        sealed(a),
        sealed(b),
        a.topic == b.topic,
        a.payload == b.payload,
        a.origin == b.origin,
        a.sequence == b.sequence,
    ensures
        a.message_id == b.message_id,
        a == b,
{
}

impl Clone for Envelope {
    fn clone(&self) -> (r: Self)
        ensures
            r@ == self@,
    {
        Envelope {
            topic: self.topic.clone(),
            payload: crate::identity::copy_bytes(self.payload.as_slice()),
            origin: self.origin.clone(),
            sequence: self.sequence,
            message_id: self.message_id,
        }
    }
}

impl Envelope {
    /// The envelope of the message that `origin` published as its
    /// `sequence`-th, on `topic`, with `payload`.
    pub fn new(
        topic: String,
        payload: Vec<u8>,
        origin: PeerIdentity,
        sequence: u64,
    ) -> (envelope: Self)
        ensures
            envelope@ == envelope_of(topic@, payload@, origin@, sequence),
            sealed(envelope@),
    {
        let id = message_id(topic.as_str(), payload.as_slice(), &origin, sequence);
        Envelope { topic, payload, origin, sequence, message_id: id }
    }

    /// The topic the message was published on.
    pub fn topic(&self) -> (topic: &String)
        ensures
            topic@ == self@.topic,
    {
        &self.topic
    }

    /// The message's bytes.
    pub fn payload(&self) -> (payload: &[u8])
        ensures
            payload@ == self@.payload,
    {
        self.payload.as_slice()
    }

    /// The peer that published the message.
    pub fn origin(&self) -> (origin: &PeerIdentity)
        ensures
            origin@ == self@.origin,
    {
        &self.origin
    }

    /// The number the origin gave the message.
    pub fn sequence(&self) -> (sequence: u64)
        ensures
            sequence == self@.sequence,
    {
        self.sequence
    }

    /// The message's id.
    pub fn message_id(&self) -> (id: u64)
        ensures
            id == self@.message_id,
    {
        self.message_id
    }
}

/// The window after `id` was noted: an id that is in the window leaves it as
/// it is; a new one joins the end, and pushes the oldest out where the
/// window is full.
pub open spec fn noted(seen: Seq<u64>, id: u64, window: nat) -> Seq<u64> {
    if seen.contains(id) {
        seen
    } else if seen.len() < window {
        seen.push(id)
    } else {
        seen.drop_first().push(id)
    }
}

/// The window after a run of ids was noted, one after the other.
pub open spec fn noted_all(seen: Seq<u64>, ids: Seq<u64>, window: nat) -> Seq<u64>
    decreases ids.len(),
{
    if ids.len() == 0 {
        seen
    } else {
        noted(noted_all(seen, ids.drop_last(), window), ids.last(), window)
    }
}

/// A window is valid: it holds each id once, and no more than its size.
pub open spec fn valid_window(seen: Seq<u64>, window: nat) -> bool {
    &&& window >= 1
    &&& seen.len() <= window
    &&& seen.no_duplicates()
}

/// Noting an id keeps a window valid, and the id is then in it.
pub proof fn lemma_noted_valid(seen: Seq<u64>, id: u64, window: nat)
    requires
        valid_window(seen, window),
    ensures
        valid_window(noted(seen, id, window), window),
        noted(seen, id, window).contains(id),
{
    if seen.contains(id) {
    } else if seen.len() < window {
        lemma_push_fresh(seen, id);
        assert(seen.push(id)[seen.len() as int] == id);
    } else {
        let cut = seen.drop_first();
        assert(cut =~= seen.remove(0));
        lemma_remove_key(seen, 0);
        lemma_push_fresh(cut, id);
        assert(cut.push(id)[cut.len() as int] == id);
    }
}

/// How many new ids a window can still take before it pushes `id` out.
pub open spec fn slack(seen: Seq<u64>, id: u64, window: nat) -> int {
    (window - seen.len()) + seen.index_of(id)
}

/// While there is slack, noting another id leaves `id` in the window and
/// takes at most one from the slack.
proof fn lemma_noted_slack(seen: Seq<u64>, id: u64, other: u64, window: nat)
    requires
        valid_window(seen, window),
        seen.contains(id),
        slack(seen, id, window) >= 1,
    ensures
        noted(seen, other, window).contains(id),
        slack(noted(seen, other, window), id, window) >= slack(seen, id, window) - 1,
{
    let p = seen.index_of(id);
    let after = noted(seen, other, window);
    lemma_noted_valid(seen, other, window);
    if seen.contains(other) {
    } else if seen.len() < window {
        assert(after[p] == id);
        assert(after.index_of(id) == p) by {
            let q = after.index_of(id);
            if q != p {
                assert(after[q] == after[p]);
            }
        }
    } else {
        assert(p >= 1);
        assert(after[p - 1] == id);
        assert(after.index_of(id) == p - 1) by {
            let q = after.index_of(id);
            if q != p - 1 {
                assert(after[q] == after[p - 1]);
            }
        }
    }
}

/// An id that was new when it was noted is still in the window after any
/// run of fewer further ids than the window's size.
pub proof fn law_window_remembers(seen: Seq<u64>, id: u64, later: Seq<u64>, window: nat)
    requires
        valid_window(seen, window),
        !seen.contains(id),
        later.len() < window,
    ensures
        valid_window(noted_all(noted(seen, id, window), later, window), window),
        noted_all(noted(seen, id, window), later, window).contains(id),
        slack(noted_all(noted(seen, id, window), later, window), id, window) >= window - 1
            - later.len(),
    decreases later.len(),
{
    let first = noted(seen, id, window);
    lemma_noted_valid(seen, id, window);
    if later.len() == 0 {
        let p = first.index_of(id);
        assert(first[first.len() - 1] == id);
        if p != first.len() - 1 {
            assert(first[p] == first[first.len() - 1]);
        }
    } else {
        law_window_remembers(seen, id, later.drop_last(), window);
        let before = noted_all(first, later.drop_last(), window);
        lemma_noted_slack(before, id, later.last(), window);
        lemma_noted_valid(before, later.last(), window);
    }
}

/// What the overlay knows of a connected peer: the topics it has announced.
#[derive(Debug)]
struct PeerTopics {
    peer: PeerIdentity,
    topics: Vec<String>,
}

/// A peer's announced topics as the contracts speak of them.
pub struct LinkView {
    pub peer: Seq<u8>,
    pub topics: Seq<Seq<char>>,
}

/// The views of a list of topics.
pub open spec fn topic_views(topics: Seq<String>) -> Seq<Seq<char>> {
    topics.map_values(|t: String| t@)
}

/// The views of a list of identities.
pub open spec fn peer_views(peers: Seq<PeerIdentity>) -> Seq<Seq<u8>> {
    peers.map_values(|p: PeerIdentity| p@)
}

impl View for PeerTopics {
    type V = LinkView;

    closed spec fn view(&self) -> LinkView {
        LinkView { peer: self.peer@, topics: topic_views(self.topics@) }
    }
}

/// The overlay as the contracts speak of it.
pub struct OverlayView {
    pub subscriptions: Seq<Seq<char>>,
    pub seen: Seq<u64>,
    pub window: nat,
    pub sequence: u64,
    pub links: Seq<LinkView>,
}

/// The overlay that subscribes to nothing, knows of no peer's topics and has
/// met no id, with a window of the given size.
pub open spec fn empty_overlay(window: nat) -> OverlayView {
    OverlayView {
        subscriptions: Seq::empty(),
        seen: Seq::empty(),
        window,
        sequence: 0,
        links: Seq::empty(),
    }
}

/// The peers of the links, in their order.
pub open spec fn link_peers(links: Seq<LinkView>) -> Seq<Seq<u8>> {
    links.map_values(|l: LinkView| l.peer)
}

/// An overlay is valid: each topic is subscribed once, each peer has one
/// link and each link names a topic once, and the window is valid.
pub open spec fn valid_overlay(overlay: OverlayView) -> bool {
    &&& overlay.subscriptions.no_duplicates()
    &&& valid_window(overlay.seen, overlay.window)
    &&& link_peers(overlay.links).no_duplicates()
    &&& forall|i: int| 0 <= i < overlay.links.len() ==> (#[trigger] overlay.links[i]).topics.no_duplicates()
}

/// The topics after one was added: as before where it was among them.
pub open spec fn with_topic(topics: Seq<Seq<char>>, topic: Seq<char>) -> Seq<Seq<char>> {
    if topics.contains(topic) {
        topics
    } else {
        topics.push(topic)
    }
}

/// The topics after one was taken out: as before where it was not among
/// them.
pub open spec fn without_topic(topics: Seq<Seq<char>>, topic: Seq<char>) -> Seq<Seq<char>> {
    match position(topics, topic) {
        Some(i) => topics.remove(i),
        None => topics,
    }
}

/// The links after `peer` announced that it subscribed to `topic`.
pub open spec fn link_added(
    links: Seq<LinkView>,
    peer: Seq<u8>,
    topic: Seq<char>,
) -> Seq<LinkView> {
    match position(link_peers(links), peer) {
        Some(i) => links.update(i, LinkView { peer, topics: with_topic(links[i].topics, topic) }),
        None => links.push(LinkView { peer, topics: seq![topic] }),
    }
}

/// The links after `peer` announced that it left `topic`.
pub open spec fn link_dropped(
    links: Seq<LinkView>,
    peer: Seq<u8>,
    topic: Seq<char>,
) -> Seq<LinkView> {
    match position(link_peers(links), peer) {
        Some(i) => links.update(
            i,
            LinkView { peer, topics: without_topic(links[i].topics, topic) },
        ),
        None => links,
    }
}

/// The links without that of `peer`.
pub open spec fn link_cut(links: Seq<LinkView>, peer: Seq<u8>) -> Seq<LinkView> {
    match position(link_peers(links), peer) {
        Some(i) => links.remove(i),
        None => links,
    }
}

/// The peers that announced `topic`, but for `except`, in the links' order.
pub open spec fn targets(
    links: Seq<LinkView>,
    topic: Seq<char>,
    except: Option<Seq<u8>>,
) -> Seq<Seq<u8>> {
    link_peers(links.filter(|l: LinkView| l.topics.contains(topic) && Some(l.peer) != except))
}

/// What the overlay hands back for a message to publish: its envelope and
/// the peers to send it to.
#[derive(Debug, PartialEq, Eq)]
pub struct Outgoing {
    pub envelope: Envelope,
    pub recipients: Vec<PeerIdentity>,
}

/// What the overlay makes of an envelope that came in.
#[derive(Debug, PartialEq, Eq)]
pub struct Reception {
    /// The envelope's id was in the window: nothing is to be done with it.
    pub duplicate: bool,
    /// The envelope goes to the local application.
    pub deliver: bool,
    /// The peers to which the envelope goes on.
    pub forward_to: Vec<PeerIdentity>,
}

/// A reception as the contracts speak of it.
pub struct ReceptionView {
    pub duplicate: bool,
    pub deliver: bool,
    pub forward_to: Seq<Seq<u8>>,
}

impl View for Reception {
    type V = ReceptionView;

    open spec fn view(&self) -> ReceptionView {
        ReceptionView {
            duplicate: self.duplicate,
            deliver: self.deliver,
            forward_to: peer_views(self.forward_to@),
        }
    }
}

/// The overlay after it published a message.
pub open spec fn published(overlay: OverlayView, id: u64) -> OverlayView {
    OverlayView {
        seen: noted(overlay.seen, id, overlay.window),
        sequence: overlay.sequence.wrapping_add(1),
        ..overlay
    }
}

/// The overlay after an envelope with this id came in.
pub open spec fn received(overlay: OverlayView, id: u64) -> OverlayView {
    OverlayView { seen: noted(overlay.seen, id, overlay.window), ..overlay }
}

/// What the overlay makes of an envelope that `from` sent: nothing where its
/// id is in the window; else it is delivered and goes on to the other peers
/// of its topic, both only where the node subscribes to the topic.
pub open spec fn reception(
    overlay: OverlayView,
    from: Seq<u8>,
    envelope: EnvelopeView,
) -> ReceptionView {
    if overlay.seen.contains(envelope.message_id) {
        ReceptionView { duplicate: true, deliver: false, forward_to: Seq::empty() }
    } else if overlay.subscriptions.contains(envelope.topic) {
        ReceptionView {
            duplicate: false,
            deliver: true,
            forward_to: targets(overlay.links, envelope.topic, Some(from)),
        }
    } else {
        ReceptionView { duplicate: false, deliver: false, forward_to: Seq::empty() }
    }
}

/// Where `topic` stands in a list of topics, if it stands there.
fn find_topic(topics: &Vec<String>, topic: &String) -> (r: Option<usize>)
    requires
        topic_views(topics@).no_duplicates(),
    ensures
        r matches Some(i) ==> i < topics@.len() && position(topic_views(topics@), topic@) == Some(
            i as int,
        ),
        r.is_none() ==> position(topic_views(topics@), topic@).is_none(),
{
    let mut i: usize = 0;
    while i < topics.len()
        invariant
            topic_views(topics@).no_duplicates(),
            i <= topics@.len(),
            forall|j: int| 0 <= j < i ==> topic_views(topics@)[j] != topic@,
        decreases topics@.len() - i,
    {
        if topics[i] == *topic {
            proof {
                assert(topic_views(topics@)[i as int] == topic@);
                lemma_position_at(topic_views(topics@), i as int);
            }
            return Some(i);
        }
        i += 1;
    }
    None
}

/// Whether `id` is in a window.
fn find_id(seen: &Vec<u64>, id: u64) -> (r: bool)
    ensures
        r == seen@.contains(id),
{
    let mut i: usize = 0;
    while i < seen.len()
        invariant
            i <= seen@.len(),
            forall|j: int| 0 <= j < i ==> seen@[j] != id,
        decreases seen@.len() - i,
    {
        if seen[i] == id {
            return true;
        }
        i += 1;
    }
    false
}

/// A copy of a list of topics.
fn copy_topics(topics: &Vec<String>) -> (r: Vec<String>)
    ensures
        topic_views(r@) == topic_views(topics@),
{
    let mut out: Vec<String> = Vec::new();
    let mut i: usize = 0;
    while i < topics.len()
        invariant
            i <= topics@.len(),
            out@.len() == i,
            forall|j: int| 0 <= j < i ==> out@[j]@ == topics@[j]@,
        decreases topics@.len() - i,
    {
        out.push(topics[i].clone());
        i += 1;
    }
    assert(topic_views(out@) =~= topic_views(topics@));
    out
}

/// The topic overlay of a node: its subscriptions, what its connected peers
/// have announced, and the suppression window.
#[derive(Debug)]
pub struct TopicOverlay {
    subscriptions: Vec<String>,
    seen: Vec<u64>,
    window: usize,
    sequence: u64,
    links: Vec<PeerTopics>,
}

impl View for TopicOverlay {
    type V = OverlayView;

    closed spec fn view(&self) -> OverlayView {
        OverlayView {
            subscriptions: topic_views(self.subscriptions@),
            seen: self.seen@,
            window: self.window as nat,
            sequence: self.sequence,
            links: self.links@.map_values(|l: PeerTopics| l@),
        }
    }
}

impl TopicOverlay {
    /// The overlay's invariant.
    pub open spec fn wf(&self) -> bool {
        valid_overlay(self@)
    }

    /// An overlay without subscriptions, links or memory, with a window of
    /// the given size; `None` where the size is zero.
    pub fn new(window: usize) -> (r: Option<Self>)
        ensures
            r.is_some() == (window >= 1),
            r matches Some(overlay) ==> overlay.wf() && overlay@ == empty_overlay(window as nat),
    {
        if window < 1 {
            return None;
        }
        let overlay = TopicOverlay {
            subscriptions: Vec::new(),
            seen: Vec::new(),
            window,
            sequence: 0,
            links: Vec::new(),
        };
        proof {
            assert(overlay@.subscriptions =~= Seq::<Seq<char>>::empty());
            assert(overlay@.links =~= Seq::<LinkView>::empty());
            assert(link_peers(overlay@.links) =~= Seq::<Seq<u8>>::empty());
        }
        Some(overlay)
    }

    /// Where the link of `peer` stands, if there is one.
    fn find_link(&self, peer: &PeerIdentity) -> (r: Option<usize>)
        requires
            self.wf(),
        ensures
            r matches Some(i) ==> i < self.links@.len() && position(link_peers(self@.links), peer@)
                == Some(i as int),
            r.is_none() ==> position(link_peers(self@.links), peer@).is_none(),
    {
        let mut i: usize = 0;
        while i < self.links.len()
            invariant
                self.wf(),
                i <= self.links@.len(),
                forall|j: int| 0 <= j < i ==> link_peers(self@.links)[j] != peer@,
            decreases self.links@.len() - i,
        {
            if self.links[i].peer.same(peer) {
                proof {
                    assert(link_peers(self@.links)[i as int] == peer@);
                    lemma_position_at(link_peers(self@.links), i as int);
                }
                return Some(i);
            }
            i += 1;
        }
        None
    }

    /// Whether the node subscribes to `topic`.
    pub fn is_subscribed(&self, topic: &String) -> (r: bool)
        requires
            self.wf(),
        ensures
            r == self@.subscriptions.contains(topic@),
    {
        find_topic(&self.subscriptions, topic).is_some()
    }

    /// The node's subscriptions, in the order in which they were made.
    pub fn subscriptions(&self) -> (topics: Vec<String>)
        ensures
            topic_views(topics@) == self@.subscriptions,
    {
        copy_topics(&self.subscriptions)
    }

    /// Whether an id is in the suppression window.
    pub fn has_seen(&self, id: u64) -> (r: bool)
        ensures
            r == self@.seen.contains(id),
    {
        find_id(&self.seen, id)
    }

    /// Subscribes the node to `topic`. Returns whether that changed
    /// anything: subscribing to a subscribed topic does not.
    pub fn subscribe(&mut self, topic: String) -> (changed: bool)
        requires
            old(self).wf(),
        ensures
            final(self).wf(),
            final(self)@ == (OverlayView {
                subscriptions: with_topic(old(self)@.subscriptions, topic@),
                ..old(self)@
            }),
            changed == !old(self)@.subscriptions.contains(topic@),
    {
        match find_topic(&self.subscriptions, &topic) {
            Some(_) => false,
            None => {
                proof {
                    lemma_map_push(self.subscriptions@, |t: String| t@, topic);
                    lemma_push_fresh(self@.subscriptions, topic@);
                }
                self.subscriptions.push(topic);
                true
            },
        }
    }

    /// Takes the node's subscription to `topic` back. Returns whether that
    /// changed anything: leaving a topic that is not subscribed does not.
    pub fn unsubscribe(&mut self, topic: &String) -> (changed: bool)
        requires
            old(self).wf(),
        ensures
            final(self).wf(),
            final(self)@ == (OverlayView {
                subscriptions: without_topic(old(self)@.subscriptions, topic@),
                ..old(self)@
            }),
            changed == old(self)@.subscriptions.contains(topic@),
    {
        match find_topic(&self.subscriptions, topic) {
            Some(i) => {
                proof {
                    lemma_map_remove(self.subscriptions@, |t: String| t@, i as int);
                    lemma_remove_key(self@.subscriptions, i as int);
                }
                self.subscriptions.remove(i);
                true
            },
            None => false,
        }
    }

    /// Notes that `peer` announced its subscription to `topic`.
    pub fn peer_subscribed(&mut self, peer: PeerIdentity, topic: String)
        requires
            old(self).wf(),
        ensures
            final(self).wf(),
            final(self)@ == (OverlayView {
                links: link_added(old(self)@.links, peer@, topic@),
                ..old(self)@
            }),
    {
        let ghost before = self@;
        match self.find_link(&peer) {
            Some(i) => {
                let ghost link = before.links[i as int];
                assert(link.topics.no_duplicates());
                assert(self.links@[i as int]@ == link);
                match find_topic(&self.links[i].topics, &topic) {
                    Some(_) => {
                        proof {
                            assert(before.links.update(i as int, link) =~= before.links);
                        }
                    },
                    None => {
                        proof {
                            lemma_map_push(self.links@[i as int].topics@, |t: String| t@, topic);
                            lemma_push_fresh(link.topics, topic@);
                        }
                        self.links[i].topics.push(topic);
                        proof {
                            let next = LinkView { peer: peer@, topics: link.topics.push(topic@) };
                            assert(self.links@[i as int]@ == next);
                            assert(self@.links =~= before.links.update(i as int, next));
                            lemma_map_update(before.links, |l: LinkView| l.peer, i as int, next);
                            assert(link_peers(self@.links) =~= link_peers(before.links));
                            assert forall|j: int| 0 <= j < self@.links.len() implies (
                            #[trigger] self@.links[j]).topics.no_duplicates() by {
                                if j != i {
                                    assert(self@.links[j] == before.links[j]);
                                }
                            }
                        }
                    },
                }
            },
            None => {
                let mut topics: Vec<String> = Vec::new();
                topics.push(topic);
                let link = PeerTopics { peer, topics };
                proof {
                    assert(link@.topics =~= seq![topic@]);
                    lemma_map_push(self.links@, |l: PeerTopics| l@, link);
                    lemma_map_push(before.links, |l: LinkView| l.peer, link@);
                    lemma_push_fresh(link_peers(before.links), link@.peer);
                }
                self.links.push(link);
                proof {
                    assert forall|j: int| 0 <= j < self@.links.len() implies (
                    #[trigger] self@.links[j]).topics.no_duplicates() by {
                        if j < before.links.len() {
                            assert(self@.links[j] == before.links[j]);
                        }
                    }
                }
            },
        }
    }

    /// Notes that `peer` announced that it left `topic`.
    pub fn peer_unsubscribed(&mut self, peer: &PeerIdentity, topic: &String)
        requires
            old(self).wf(),
        ensures
            final(self).wf(),
            final(self)@ == (OverlayView {
                links: link_dropped(old(self)@.links, peer@, topic@),
                ..old(self)@
            }),
    {
        let ghost before = self@;
        match self.find_link(peer) {
            Some(i) => {
                let ghost link = before.links[i as int];
                assert(link.topics.no_duplicates());
                assert(self.links@[i as int]@ == link);
                match find_topic(&self.links[i].topics, topic) {
                    Some(k) => {
                        proof {
                            lemma_map_remove(self.links@[i as int].topics@, |t: String| t@, k as int);
                            lemma_remove_key(link.topics, k as int);
                        }
                        self.links[i].topics.remove(k);
                        proof {
                            let next = LinkView { peer: peer@, topics: link.topics.remove(k as int) };
                            assert(self.links@[i as int]@ == next);
                            assert(self@.links =~= before.links.update(i as int, next));
                            lemma_map_update(before.links, |l: LinkView| l.peer, i as int, next);
                            assert(link_peers(self@.links) =~= link_peers(before.links));
                            assert forall|j: int| 0 <= j < self@.links.len() implies (
                            #[trigger] self@.links[j]).topics.no_duplicates() by {
                                if j != i {
                                    assert(self@.links[j] == before.links[j]);
                                }
                            }
                        }
                    },
                    None => {
                        proof {
                            assert(before.links.update(i as int, link) =~= before.links);
                        }
                    },
                }
            },
            None => {},
        }
    }

    /// Forgets what `peer` announced: it is no longer connected.
    pub fn forget_peer(&mut self, peer: &PeerIdentity)
        requires
            old(self).wf(),
        ensures
            final(self).wf(),
            final(self)@ == (OverlayView { links: link_cut(old(self)@.links, peer@), ..old(self)@ }),
            position(link_peers(final(self)@.links), peer@).is_none(),
    {
        let ghost before = self@;
        match self.find_link(peer) {
            Some(i) => {
                proof {
                    lemma_map_remove(self.links@, |l: PeerTopics| l@, i as int);
                    lemma_map_remove(before.links, |l: LinkView| l.peer, i as int);
                    lemma_remove_key(link_peers(before.links), i as int);
                }
                self.links.remove(i);
                proof {
                    assert forall|j: int| 0 <= j < self@.links.len() implies (
                    #[trigger] self@.links[j]).topics.no_duplicates() by {
                        let j0 = if j < i { j } else { j + 1 };
                        assert(self@.links[j] == before.links[j0]);
                    }
                }
            },
            None => {},
        }
    }

    /// The peers that announced `topic`, but for `except`, in the links'
    /// order.
    pub fn members(
        &self,
        topic: &String,
        except: Option<&PeerIdentity>,
    ) -> (peers: Vec<PeerIdentity>)
        requires
            self.wf(),
        ensures
            peer_views(peers@) == targets(
                self@.links,
                topic@,
                match except {
                    Some(peer) => Some(peer@),
                    None => None,
                },
            ),
    {
        let ghost skip: Option<Seq<u8>> = match except {
            Some(peer) => Some(peer@),
            None => None,
        };
        let ghost pred = |l: LinkView| l.topics.contains(topic@) && Some(l.peer) != skip;
        let ghost all = self@.links;
        let mut out: Vec<PeerIdentity> = Vec::new();
        let mut i: usize = 0;
        proof {
            reveal(Seq::filter);
            assert(all.take(0) =~= Seq::<LinkView>::empty());
            assert(peer_views(out@) =~= link_peers(all.take(0).filter(pred)));
        }
        while i < self.links.len()
            invariant
                self.wf(),
                i <= self.links@.len(),
                all == self@.links,
                all.len() == self.links@.len(),
                skip == match except {
                    Some(peer) => Some(peer@),
                    None => None,
                },
                pred == |l: LinkView| l.topics.contains(topic@) && Some(l.peer) != skip,
                peer_views(out@) == link_peers(all.take(i as int).filter(pred)),
            decreases self.links@.len() - i,
        {
            let link = &self.links[i];
            proof {
                assert(all.take(i + 1) =~= all.take(i as int).push(all[i as int]));
                all.take(i as int).lemma_filter_push(all[i as int], pred);
                assert(all[i as int] == link@);
                assert(all[i as int].topics.no_duplicates());
            }
            let other = match except {
                Some(peer) => !link.peer.same(peer),
                None => true,
            };
            if other && find_topic(&link.topics, topic).is_some() {
                let peer = link.peer.clone();
                proof {
                    lemma_map_push(out@, |p: PeerIdentity| p@, peer);
                    lemma_map_push(all.take(i as int).filter(pred), |l: LinkView| l.peer, all[i as int]);
                }
                out.push(peer);
            }
            i += 1;
        }
        proof {
            assert(all.take(all.len() as int) =~= all);
        }
        out
    }

    /// Notes an id in the window.
    fn note(&mut self, id: u64)
        requires
            old(self).wf(),
        ensures
            final(self).wf(),
            final(self)@ == received(old(self)@, id),
    {
        proof {
            lemma_noted_valid(self@.seen, id, self@.window);
        }
        if !find_id(&self.seen, id) {
            if self.seen.len() >= self.window {
                self.seen.remove(0);
                proof {
                    assert(self.seen@ =~= old(self).seen@.drop_first());
                }
            }
            self.seen.push(id);
        }
    }

    /// Publishes a message of the node `origin` on `topic`: seals it in an
    /// envelope under the overlay's next sequence number, notes the
    /// envelope's id, and names the peers to send it to, those that
    /// announced the topic. The sequence number then goes on by one, and
    /// from the greatest back to zero.
    pub fn publish(
        &mut self,
        topic: String,
        payload: Vec<u8>,
        origin: PeerIdentity,
    ) -> (out: Outgoing)
        requires
            old(self).wf(),
        ensures
            final(self).wf(),
            out.envelope@ == envelope_of(topic@, payload@, origin@, old(self)@.sequence),
            final(self)@ == published(old(self)@, out.envelope@.message_id),
            peer_views(out.recipients@) == targets(old(self)@.links, topic@, None),
    {
        let recipients = self.members(&topic, None);
        let envelope = Envelope::new(topic, payload, origin, self.sequence);
        self.note(envelope.message_id());
        self.sequence = self.sequence.wrapping_add(1);
        Outgoing { envelope, recipients }
    }

    /// Takes in an envelope that `from` sent. One whose id is in the window
    /// is a duplicate and changes nothing. Any other has its id noted; where
    /// the node subscribes to its topic it is delivered and goes on to the
    /// peers that announced the topic, but for `from`.
    pub fn receive(&mut self, from: &PeerIdentity, envelope: &Envelope) -> (r: Reception)
        requires
            old(self).wf(),
        ensures
            final(self).wf(),
            r@ == reception(old(self)@, from@, envelope@),
            final(self)@ == received(old(self)@, envelope@.message_id),
            final(self)@.seen.contains(envelope@.message_id),
    {
        proof {
            lemma_noted_valid(self@.seen, envelope@.message_id, self@.window);
        }
        if find_id(&self.seen, envelope.message_id()) {
            let r = Reception { duplicate: true, deliver: false, forward_to: Vec::new() };
            assert(r@.forward_to =~= Seq::<Seq<u8>>::empty());
            return r;
        }
        let r = if self.is_subscribed(envelope.topic()) {
            Reception {
                duplicate: false,
                deliver: true,
                forward_to: self.members(envelope.topic(), Some(from)),
            }
        } else {
            let r = Reception { duplicate: false, deliver: false, forward_to: Vec::new() };
            assert(r@.forward_to =~= Seq::<Seq<u8>>::empty());
            r
        };
        self.note(envelope.message_id());
        r
    }
}

/// The overlay after a run of envelopes came in, one after the other.
pub open spec fn received_all(overlay: OverlayView, ids: Seq<u64>) -> OverlayView
    decreases ids.len(),
{
    if ids.len() == 0 {
        overlay
    } else {
        received(received_all(overlay, ids.drop_last()), ids.last())
    }
}

/// An envelope whose id is in the window is dropped, and leaves the overlay
/// as it was.
pub proof fn law_seen_is_dropped(overlay: OverlayView, from: Seq<u8>, envelope: EnvelopeView)
    requires
        overlay.seen.contains(envelope.message_id),
    ensures
        !reception(overlay, from, envelope).deliver,
        reception(overlay, from, envelope).forward_to.len() == 0,
        received(overlay, envelope.message_id) == overlay,
{
}

/// An envelope that came in when its id was new is not delivered again,
/// whoever sends it, after any run of fewer further envelopes than the
/// window's size.
pub proof fn law_no_second_delivery(
    overlay: OverlayView,
    envelope: EnvelopeView,
    later: Seq<u64>,
    again_from: Seq<u8>,
)
    requires
        valid_overlay(overlay),
        !overlay.seen.contains(envelope.message_id),
        later.len() < overlay.window,
    ensures
        !reception(
            received_all(received(overlay, envelope.message_id), later),
            again_from,
            envelope,
        ).deliver,
        reception(
            received_all(received(overlay, envelope.message_id), later),
            again_from,
            envelope,
        ).duplicate,
{
    let first = received(overlay, envelope.message_id);
    lemma_received_all_seen(first, later);
    law_window_remembers(overlay.seen, envelope.message_id, later, overlay.window);
}

/// A run of receptions changes the window as the run of their ids does, and
/// nothing else.
proof fn lemma_received_all_seen(overlay: OverlayView, ids: Seq<u64>)
    ensures
        received_all(overlay, ids) == (OverlayView {
            seen: noted_all(overlay.seen, ids, overlay.window),
            ..overlay
        }),
    decreases ids.len(),
{
    if ids.len() > 0 {
        lemma_received_all_seen(overlay, ids.drop_last());
    }
}

/// Subscribing to a subscribed topic changes nothing, and so does leaving a
/// topic that is not subscribed; subscribing twice is subscribing once.
pub proof fn law_subscription_idempotent(topics: Seq<Seq<char>>, topic: Seq<char>)
    ensures
        topics.contains(topic) ==> with_topic(topics, topic) == topics,
        !topics.contains(topic) ==> without_topic(topics, topic) == topics,
        with_topic(with_topic(topics, topic), topic) == with_topic(topics, topic),
        topics.no_duplicates() ==> without_topic(without_topic(topics, topic), topic)
            == without_topic(topics, topic),
{
    if !topics.contains(topic) {
        assert(topics.push(topic)[topics.len() as int] == topic);
    }
    if topics.no_duplicates() && topics.contains(topic) {
        lemma_remove_key(topics, topics.index_of(topic));
    }
}

} // verus!
