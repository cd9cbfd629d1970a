//! Peer identities and peer addresses.
//!
//! An identity is held as the bytes of a libp2p peer id, an address as the
//! bytes of a multiaddr. Both are opaque to the overlay: it compares them and
//! hands them on. Decoding their text forms is left to libp2p.

use libp2p::{Multiaddr, PeerId};
use vstd::prelude::*;

verus! {

/// The bytes of the peer id that `PeerId::from_str` decodes `text` to, or
/// `None` where it rejects `text`.
pub uninterp spec fn decoded_peer_id(text: Seq<char>) -> Option<Seq<u8>>;

/// The bytes of the multiaddr that `Multiaddr::from_str` parses `text` to, or
/// `None` where it rejects `text`.
pub uninterp spec fn encoded_multiaddr(text: Seq<char>) -> Option<Seq<u8>>;

/// Calls libp2p's `PeerId::from_str` (through `str::parse`) and, where it
/// accepts the text, `PeerId::to_bytes`. Trusted: the result is a function of
/// the text alone, named `decoded_peer_id`.
#[verifier::external_body]
fn peer_id_from_text(text: &str) -> (r: Option<Vec<u8>>)
    ensures
        r.is_some() == decoded_peer_id(text@).is_some(),
        r matches Some(bytes) ==> decoded_peer_id(text@) == Some(bytes@),
{
    match text.parse::<PeerId>() {
        Ok(id) => Some(id.to_bytes()),
        Err(_) => None,
    }
}

/// Calls `Multiaddr::from_str` (through `str::parse`) and, where it accepts
/// the text, `Multiaddr::to_vec`. Trusted: the result is a function of the
/// text alone, named `encoded_multiaddr`.
#[verifier::external_body]
fn multiaddr_from_text(text: &str) -> (r: Option<Vec<u8>>)
    ensures
        r.is_some() == encoded_multiaddr(text@).is_some(),
        r matches Some(bytes) ==> encoded_multiaddr(text@) == Some(bytes@),
{
    match text.parse::<Multiaddr>() {
        Ok(addr) => Some(addr.to_vec()),
        Err(_) => None,
    }
}

/// Whether two byte strings hold the same bytes.
pub fn same_bytes(a: &[u8], b: &[u8]) -> (r: bool)
    ensures
        r == (a@ == b@),
{
    if a.len() != b.len() {
        return false;
    }
    let mut i: usize = 0;
    while i < a.len()
        invariant
            a@.len() == b@.len(),
            i <= a@.len(),
            forall|j: int| 0 <= j < i ==> a@[j] == b@[j],
        decreases a@.len() - i,
    {
        if a[i] != b[i] {
            return false;
        }
        i += 1;
    }
    assert(a@ =~= b@);
    true
}

/// A copy of a byte string.
pub fn copy_bytes(a: &[u8]) -> (r: Vec<u8>)
    ensures
        r@ == a@,
{
    let mut out: Vec<u8> = Vec::new();
    let mut i: usize = 0;
    while i < a.len()
        invariant
            i <= a@.len(),
            out@ == a@.subrange(0, i as int),
        decreases a@.len() - i,
    {
        out.push(a[i]);
        assert(a@.subrange(0, i as int).push(a@[i as int]) =~= a@.subrange(0, i + 1));
        i += 1;
    }
    assert(a@.subrange(0, a@.len() as int) =~= a@);
    out
}

/// The identity of a peer: the bytes of its peer id.
#[derive(Debug, PartialEq, Eq)]
pub struct PeerIdentity {
    bytes: Vec<u8>,
}

impl View for PeerIdentity {
    type V = Seq<u8>;

    closed spec fn view(&self) -> Seq<u8> {
        self.bytes@
    }
}

impl Clone for PeerIdentity {
    fn clone(&self) -> (r: Self)
        ensures
            r@ == self@,
    {
        PeerIdentity { bytes: copy_bytes(self.bytes.as_slice()) }
    }
}

impl PeerIdentity {
    /// The identity with the given bytes.
    pub fn from_bytes(bytes: Vec<u8>) -> (id: Self)
        ensures
            id@ == bytes@,
    {
        PeerIdentity { bytes }
    }

    /// The identity that a base-58 peer id names, where libp2p accepts it.
    pub fn parse(text: &str) -> (r: Option<Self>)
        ensures
            r.is_some() == decoded_peer_id(text@).is_some(),
            r matches Some(id) ==> decoded_peer_id(text@) == Some(id@),
    {
        match peer_id_from_text(text) {
            Some(bytes) => Some(PeerIdentity { bytes }),
            None => None,
        }
    }

    /// The identity's bytes.
    pub fn as_bytes(&self) -> (bytes: &[u8])
        ensures
            bytes@ == self@,
    {
        self.bytes.as_slice()
    }

    /// Whether `other` is the same identity.
    pub fn same(&self, other: &PeerIdentity) -> (r: bool)
        ensures
            r == (self@ == other@),
    {
        same_bytes(self.bytes.as_slice(), other.bytes.as_slice())
    }
}

/// A network location of a peer: the bytes of its multiaddr.
#[derive(Debug, PartialEq, Eq)]
pub struct PeerAddress {
    bytes: Vec<u8>,
}

impl View for PeerAddress {
    type V = Seq<u8>;

    closed spec fn view(&self) -> Seq<u8> {
        self.bytes@
    }
}

impl Clone for PeerAddress {
    fn clone(&self) -> (r: Self)
        ensures
            r@ == self@,
    {
        PeerAddress { bytes: copy_bytes(self.bytes.as_slice()) }
    }
}

impl PeerAddress {
    /// The address with the given bytes.
    pub fn from_bytes(bytes: Vec<u8>) -> (addr: Self)
        ensures
            addr@ == bytes@,
    {
        PeerAddress { bytes }
    }

    /// The address that a multiaddr in text form names, where libp2p accepts
    /// it.
    pub fn parse(text: &str) -> (r: Option<Self>)
        ensures
            r.is_some() == encoded_multiaddr(text@).is_some(),
            r matches Some(addr) ==> encoded_multiaddr(text@) == Some(addr@),
    {
        match multiaddr_from_text(text) {
            Some(bytes) => Some(PeerAddress { bytes }),
            None => None,
        }
    }

    /// The address's bytes.
    pub fn as_bytes(&self) -> (bytes: &[u8])
        ensures
            bytes@ == self@,
    {
        self.bytes.as_slice()
    }

    /// Whether `other` is the same address.
    pub fn same(&self, other: &PeerAddress) -> (r: bool)
        ensures
            r == (self@ == other@),
    {
        same_bytes(self.bytes.as_slice(), other.bytes.as_slice())
    }
}

/// A peer as an operator names it: where it listens and who it is.
#[derive(Debug, PartialEq, Eq)]
pub struct PeerInfo {
    pub multiaddr: PeerAddress,
    pub peer_id: PeerIdentity,
}

impl PeerInfo {
    /// Whether libp2p accepts `multiaddr` as a multiaddr and `peer_id` as a
    /// peer id.
    pub open spec fn accepts(multiaddr: Seq<char>, peer_id: Seq<char>) -> bool {
        encoded_multiaddr(multiaddr).is_some() && decoded_peer_id(peer_id).is_some()
    }

    /// The peer named by a multiaddr and a base-58 peer id, both of which
    /// libp2p accepts.
    pub fn new(multiaddr: &str, peer_id: &str) -> (info: Self)
        requires
            PeerInfo::accepts(multiaddr@, peer_id@),
        ensures
            Some(info.multiaddr@) == encoded_multiaddr(multiaddr@),
            Some(info.peer_id@) == decoded_peer_id(peer_id@),
    {
        let id = PeerIdentity::parse(peer_id);
        let addr = PeerAddress::parse(multiaddr);
        PeerInfo { peer_id: id.unwrap(), multiaddr: addr.unwrap() }
    }

    /// The peer named by the two texts, or `None` where libp2p rejects one of
    /// them.
    pub fn parse(multiaddr: &str, peer_id: &str) -> (r: Option<Self>)
        ensures
            r.is_some() == PeerInfo::accepts(multiaddr@, peer_id@),
            r matches Some(info) ==> {
                &&& Some(info.multiaddr@) == encoded_multiaddr(multiaddr@)
                &&& Some(info.peer_id@) == decoded_peer_id(peer_id@)
            },
    {
        if PeerAddress::parse(multiaddr).is_some() && PeerIdentity::parse(peer_id).is_some() {
            Some(PeerInfo::new(multiaddr, peer_id))
        } else {
            None
        }
    }
}

} // verus!
