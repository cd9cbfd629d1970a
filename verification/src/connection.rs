//! The table of live connections, one per peer.
//!
//! A connection is created on dial or inbound accept, becomes established
//! when the handshake completes, and is taken out of the table when it
//! closes: the table never holds a closed connection.

use crate::identity::{PeerAddress, PeerIdentity};
use crate::index::{
    lemma_map_push, lemma_map_remove, lemma_map_update, lemma_position_at, lemma_push_fresh,
    lemma_remove_key, position,
};
use vstd::prelude::*;

verus! {

/// How far a connection has come.
#[derive(Clone, Copy, Debug, PartialEq, Eq, Structural)]
pub enum ConnectionStatus {
    Connecting,
    Established,
    Closed,
}

/// The state of the connection to one peer.
#[derive(Debug, PartialEq, Eq)]
pub struct ConnectionState {
    pub peer: PeerIdentity,
    pub address: PeerAddress,
    pub established_at: u64,
    pub status: ConnectionStatus,
}

/// A connection as the contracts speak of it.
pub struct ConnectionView {
    pub peer: Seq<u8>,
    pub address: Seq<u8>,
    pub established_at: u64,
    pub status: ConnectionStatus,
}

impl View for ConnectionState {
    type V = ConnectionView;

    open spec fn view(&self) -> ConnectionView {
        ConnectionView {
            peer: self.peer@,
            address: self.address@,
            established_at: self.established_at,
            status: self.status,
        }
    }
}

impl Clone for ConnectionState {
    fn clone(&self) -> (r: Self)
        ensures
            r@ == self@,
    {
        ConnectionState {
            peer: self.peer.clone(),
            address: self.address.clone(),
            established_at: self.established_at,
            status: self.status,
        }
    }
}

/// The peers of a table, in its order.
pub open spec fn peers(table: Seq<ConnectionView>) -> Seq<Seq<u8>> {
    table.map_values(|c: ConnectionView| c.peer)
}

/// A table holds each peer once and no closed connection.
pub open spec fn valid_table(table: Seq<ConnectionView>) -> bool {
    &&& peers(table).no_duplicates()
    &&& forall|i: int| 0 <= i < table.len() ==> table[i].status != ConnectionStatus::Closed
}

/// The table after a dial to, or an inbound accept from, `peer`: a peer that
/// has no connection yet gets one that is connecting; for any other the
/// table stays as it is.
pub open spec fn opened(
    table: Seq<ConnectionView>,
    peer: Seq<u8>,
    address: Seq<u8>,
    now: u64,
) -> Seq<ConnectionView> {
    match position(peers(table), peer) {
        Some(_) => table,
        None => table.push(
            ConnectionView {
                peer,
                address,
                established_at: now,
                status: ConnectionStatus::Connecting,
            },
        ),
    }
}

/// The table after the handshake with `peer` completed at `now`: a connecting
/// connection becomes established, at the address the handshake gave; a
/// peer without a connection gets an established one; an established
/// connection stays as it is.
pub open spec fn established(
    table: Seq<ConnectionView>,
    peer: Seq<u8>,
    address: Seq<u8>,
    now: u64,
) -> Seq<ConnectionView> {
    let fresh = ConnectionView {
        peer,
        address,
        established_at: now,
        status: ConnectionStatus::Established,
    };
    match position(peers(table), peer) {
        Some(i) => if table[i].status == ConnectionStatus::Connecting {
            table.update(i, fresh)
        } else {
            table
        },
        None => table.push(fresh),
    }
}

/// The table after the connection to `peer` closed: it is gone.
pub open spec fn closed(table: Seq<ConnectionView>, peer: Seq<u8>) -> Seq<ConnectionView> {
    match position(peers(table), peer) {
        Some(i) => table.remove(i),
        None => table,
    }
}

/// Whether the table holds an established connection to `peer`.
pub open spec fn is_connected(table: Seq<ConnectionView>, peer: Seq<u8>) -> bool {
    match position(peers(table), peer) {
        Some(i) => table[i].status == ConnectionStatus::Established,
        None => false,
    }
}

/// The table after a dial to `peer` failed: a connection that was still
/// connecting is gone; an established one stays.
pub open spec fn abandoned(table: Seq<ConnectionView>, peer: Seq<u8>) -> Seq<ConnectionView> {
    match position(peers(table), peer) {
        Some(i) => if table[i].status == ConnectionStatus::Connecting {
            table.remove(i)
        } else {
            table
        },
        None => table,
    }
}

/// The peers with an established connection, in the table's order.
pub open spec fn connected(table: Seq<ConnectionView>) -> Seq<Seq<u8>> {
    peers(table.filter(|c: ConnectionView| c.status == ConnectionStatus::Established))
}

/// A change to the connection of one peer leaves every other peer as
/// connected as it was.
pub proof fn lemma_others_unchanged(
    before: Seq<ConnectionView>,
    peer: Seq<u8>,
    address: Seq<u8>,
    now: u64,
    other: Seq<u8>,
)
    requires
        valid_table(before),
        other != peer,
    ensures
        is_connected(opened(before, peer, address, now), other) == is_connected(before, other),
        is_connected(established(before, peer, address, now), other) == is_connected(before, other),
        is_connected(closed(before, peer), other) == is_connected(before, other),
        is_connected(abandoned(before, peer), other) == is_connected(before, other),
{
    let fresh = ConnectionView {
        peer,
        address,
        established_at: now,
        status: ConnectionStatus::Connecting,
    };
    let ready = ConnectionView {
        peer,
        address,
        established_at: now,
        status: ConnectionStatus::Established,
    };
    match position(peers(before), peer) {
        Some(i) => {
            lemma_same_elsewhere_update(before, i, ready, other);
            lemma_same_elsewhere_remove(before, i, other);
        },
        None => {
            lemma_same_elsewhere_push(before, fresh, other);
            lemma_same_elsewhere_push(before, ready, other);
        },
    }
}

/// A connection added for one peer leaves every other peer as connected as
/// it was.
proof fn lemma_same_elsewhere_push(
    before: Seq<ConnectionView>,
    added: ConnectionView,
    other: Seq<u8>,
)
    requires
        valid_table(before),
        !peers(before).contains(added.peer),
        other != added.peer,
    ensures
        is_connected(before.push(added), other) == is_connected(before, other),
{
    let after = before.push(added);
    lemma_map_push(before, |c: ConnectionView| c.peer, added);
    lemma_push_fresh(peers(before), added.peer);
    match position(peers(before), other) {
        Some(i) => {
            assert(peers(after)[i] == other);
            lemma_position_at(peers(after), i);
        },
        None => {
            if peers(after).contains(other) {
                let j = peers(after).index_of(other);
                assert(peers(before)[j] == other);
            }
        },
    }
}

/// A connection replaced for one peer leaves every other peer as connected
/// as it was.
proof fn lemma_same_elsewhere_update(
    before: Seq<ConnectionView>,
    i: int,
    put: ConnectionView,
    other: Seq<u8>,
)
    requires
        valid_table(before),
        0 <= i < before.len(),
        before[i].peer == put.peer,
        other != put.peer,
    ensures
        is_connected(before.update(i, put), other) == is_connected(before, other),
{
    let after = before.update(i, put);
    lemma_map_update(before, |c: ConnectionView| c.peer, i, put);
    assert(peers(after) =~= peers(before));
    match position(peers(before), other) {
        Some(j) => {
            assert(j != i);
        },
        None => {},
    }
}

/// A connection taken out for one peer leaves every other peer as connected
/// as it was.
proof fn lemma_same_elsewhere_remove(before: Seq<ConnectionView>, i: int, other: Seq<u8>)
    requires
        valid_table(before),
        0 <= i < before.len(),
        other != before[i].peer,
    ensures
        is_connected(before.remove(i), other) == is_connected(before, other),
{
    let after = before.remove(i);
    lemma_map_remove(before, |c: ConnectionView| c.peer, i);
    lemma_remove_key(peers(before), i);
    assert(peers(before)[i] == before[i].peer);
    match position(peers(before), other) {
        Some(j) => {
            let j2 = if j < i { j } else { j - 1 };
            assert(peers(after)[j2] == other);
            lemma_position_at(peers(after), j2);
        },
        None => {},
    }
}

/// The connections of the node, one per peer.
#[derive(Debug)]
pub struct ConnectionTable {
    entries: Vec<ConnectionState>,
}

impl View for ConnectionTable {
    type V = Seq<ConnectionView>;

    closed spec fn view(&self) -> Seq<ConnectionView> {
        self.entries@.map_values(|c: ConnectionState| c@)
    }
}

impl ConnectionTable {
    /// The table's invariant: each peer once, no closed connection.
    pub open spec fn wf(&self) -> bool {
        valid_table(self@)
    }

    /// The empty table.
    pub fn new() -> (table: Self)
        ensures
            table@ == Seq::<ConnectionView>::empty(),
            table.wf(),
    {
        let table = ConnectionTable { entries: Vec::new() };
        assert(table@ =~= Seq::<ConnectionView>::empty());
        table
    }

    /// The number of connections.
    pub fn len(&self) -> (n: usize)
        ensures
            n == self@.len(),
    {
        self.entries.len()
    }

    /// Where the connection to `peer` stands, if there is one.
    fn find(&self, peer: &PeerIdentity) -> (r: Option<usize>)
        requires
            self.wf(),
        ensures
            r matches Some(i) ==> i < self.entries@.len() && position(peers(self@), peer@) == Some(
                i as int,
            ),
            r.is_none() ==> position(peers(self@), peer@).is_none(),
    {
        let mut i: usize = 0;
        while i < self.entries.len()
            invariant
                self.wf(),
                i <= self.entries@.len(),
                forall|j: int| 0 <= j < i ==> peers(self@)[j] != peer@,
            decreases self.entries@.len() - i,
        {
            if self.entries[i].peer.same(peer) {
                proof {
                    assert(peers(self@)[i as int] == peer@);
                    lemma_position_at(peers(self@), i as int);
                }
                return Some(i);
            }
            i += 1;
        }
        None
    }

    /// The connection to `peer`, if there is one.
    pub fn get(&self, peer: &PeerIdentity) -> (r: Option<&ConnectionState>)
        requires
            self.wf(),
        ensures
            match position(peers(self@), peer@) {
                Some(i) => r.is_some() && r.unwrap()@ == self@[i],
                None => r.is_none(),
            },
    {
        match self.find(peer) {
            Some(i) => Some(&self.entries[i]),
            None => None,
        }
    }

    /// Whether the connection to `peer` is established.
    pub fn is_established(&self, peer: &PeerIdentity) -> (r: bool)
        requires
            self.wf(),
        ensures
            r == is_connected(self@, peer@),
    {
        match self.find(peer) {
            Some(i) => match self.entries[i].status {
                ConnectionStatus::Established => true,
                _ => false,
            },
            None => false,
        }
    }

    /// Notes a dial to, or an inbound accept from, `peer`. Returns whether a
    /// connection was created.
    pub fn open(&mut self, peer: PeerIdentity, address: PeerAddress, now: u64) -> (created: bool)
        requires
            old(self).wf(),
        ensures
            final(self).wf(),
            final(self)@ == opened(old(self)@, peer@, address@, now),
            created == position(peers(old(self)@), peer@).is_none(),
    {
        match self.find(&peer) {
            Some(_) => false,
            None => {
                let state = ConnectionState {
                    peer,
                    address,
                    established_at: now,
                    status: ConnectionStatus::Connecting,
                };
                proof {
                    lemma_map_push(self.entries@, |c: ConnectionState| c@, state);
                    lemma_map_push(self@, |c: ConnectionView| c.peer, state@);
                    lemma_push_fresh(peers(self@), state@.peer);
                }
                self.entries.push(state);
                true
            },
        }
    }

    /// Notes that the handshake with `peer` completed. Returns whether the
    /// connection became established by this.
    pub fn establish(&mut self, peer: PeerIdentity, address: PeerAddress, now: u64) -> (fresh: bool)
        requires
            old(self).wf(),
        ensures
            final(self).wf(),
            final(self)@ == established(old(self)@, peer@, address@, now),
            fresh == !is_connected(old(self)@, peer@),
            is_connected(final(self)@, peer@),
    {
        let state = ConnectionState {
            peer,
            address,
            established_at: now,
            status: ConnectionStatus::Established,
        };
        let ghost before = self@;
        match self.find(&state.peer) {
            Some(i) => {
                proof {
                    lemma_position_at(peers(before), i as int);
                }
                match self.entries[i].status {
                    ConnectionStatus::Connecting => {
                        proof {
                            lemma_map_update(self.entries@, |c: ConnectionState| c@, i as int, state);
                            lemma_map_update(before, |c: ConnectionView| c.peer, i as int, state@);
                            assert(peers(before).update(i as int, state@.peer) =~= peers(before));
                        }
                        self.entries[i] = state;
                        proof {
                            lemma_position_at(peers(self@), i as int);
                        }
                        true
                    },
                    _ => false,
                }
            },
            None => {
                proof {
                    lemma_map_push(self.entries@, |c: ConnectionState| c@, state);
                    lemma_map_push(before, |c: ConnectionView| c.peer, state@);
                    lemma_push_fresh(peers(before), state@.peer);
                }
                self.entries.push(state);
                proof {
                    lemma_position_at(peers(self@), before.len() as int);
                }
                true
            },
        }
    }

    /// Takes the connection to `peer` out of the table. Returns the state it
    /// had, marked closed, or `None` where there was no connection.
    pub fn close(&mut self, peer: &PeerIdentity) -> (gone: Option<ConnectionState>)
        requires
            old(self).wf(),
        ensures
            final(self).wf(),
            final(self)@ == closed(old(self)@, peer@),
            position(peers(final(self)@), peer@).is_none(),
            match position(peers(old(self)@), peer@) {
                Some(i) => gone.is_some() && gone.unwrap()@ == (ConnectionView {
                    status: ConnectionStatus::Closed,
                    ..old(self)@[i]
                }),
                None => gone.is_none(),
            },
    {
        let ghost before = self@;
        match self.find(peer) {
            Some(i) => {
                proof {
                    lemma_map_remove(self.entries@, |c: ConnectionState| c@, i as int);
                    lemma_map_remove(before, |c: ConnectionView| c.peer, i as int);
                    lemma_remove_key(peers(before), i as int);
                }
                let mut state = self.entries.remove(i);
                state.status = ConnectionStatus::Closed;
                Some(state)
            },
            None => None,
        }
    }

    /// Notes that a dial to `peer` failed: a connection that was still
    /// connecting is taken out. Returns whether one was.
    pub fn abandon(&mut self, peer: &PeerIdentity) -> (gone: bool)
        requires
            old(self).wf(),
        ensures
            final(self).wf(),
            final(self)@ == abandoned(old(self)@, peer@),
            gone == (final(self)@ != old(self)@),
    {
        let ghost before = self@;
        match self.find(peer) {
            Some(i) => match self.entries[i].status {
                ConnectionStatus::Connecting => {
                    proof {
                        lemma_map_remove(self.entries@, |c: ConnectionState| c@, i as int);
                        lemma_map_remove(before, |c: ConnectionView| c.peer, i as int);
                        lemma_remove_key(peers(before), i as int);
                    }
                    self.entries.remove(i);
                    assert(self@.len() != before.len());
                    true
                },
                _ => false,
            },
            None => false,
        }
    }

    /// The peers with an established connection, in the table's order.
    pub fn connected_peers(&self) -> (r: Vec<PeerIdentity>)
        ensures
            r@.map_values(|p: PeerIdentity| p@) == connected(self@),
    {
        let mut out: Vec<PeerIdentity> = Vec::new();
        let ghost pred = |c: ConnectionView| c.status == ConnectionStatus::Established;
        let mut i: usize = 0;
        proof {
            assert(self@.take(0) =~= Seq::<ConnectionView>::empty());
            reveal(Seq::filter);
            assert(out@.map_values(|p: PeerIdentity| p@) =~= peers(self@.take(0).filter(pred)));
        }
        while i < self.entries.len()
            invariant
                i <= self.entries@.len(),
                self@.len() == self.entries@.len(),
                pred == |c: ConnectionView| c.status == ConnectionStatus::Established,
                out@.map_values(|p: PeerIdentity| p@) == peers(self@.take(i as int).filter(pred)),
            decreases self.entries@.len() - i,
        {
            let ghost seen = self@.take(i as int);
            proof {
                assert(self@.take(i + 1) =~= seen.push(self@[i as int]));
                seen.lemma_filter_push(self@[i as int], pred);
            }
            match self.entries[i].status {
                ConnectionStatus::Established => {
                    let peer = self.entries[i].peer.clone();
                    proof {
                        lemma_map_push(out@, |p: PeerIdentity| p@, peer);
                        lemma_map_push(seen.filter(pred), |c: ConnectionView| c.peer, self@[i as int]);
                    }
                    out.push(peer);
                },
                _ => {},
            }
            i += 1;
        }
        proof {
            assert(self@.take(self@.len() as int) =~= self@);
        }
        out
    }
}

} // verus!
