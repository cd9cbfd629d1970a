//! The peer directory: what is known of each peer, one record per identity.

use crate::connection::{is_connected, peers, ConnectionTable, ConnectionView};
use crate::identity::{PeerAddress, PeerIdentity};
use crate::index::{
    lemma_map_push, lemma_map_remove, lemma_map_update, lemma_position_at, lemma_push_fresh,
    lemma_remove_key, position,
};
use vstd::prelude::*;

verus! {

/// How a peer came to be known. A later variant is the stronger source.
#[derive(Clone, Copy, Debug, PartialEq, Eq, Structural)]
pub enum Source {
    Bootstrap,
    LocalDiscovery,
    InboundConnection,
}

impl Source {
    /// The rank of a source: the higher, the more authoritative.
    pub open spec fn rank(self) -> nat {
        match self {
            Source::Bootstrap => 0,
            Source::LocalDiscovery => 1,
            Source::InboundConnection => 2,
        }
    }

    /// The more authoritative of two sources; the first where they rank
    /// alike.
    pub open spec fn stronger(self, other: Source) -> Source {
        if other.rank() > self.rank() {
            other
        } else {
            self
        }
    }

    /// The more authoritative of two sources.
    pub fn strongest(self, other: Source) -> (r: Source)
        ensures
            r == self.stronger(other),
    {
        match (self, other) {
            (Source::Bootstrap, _) => other,
            (Source::LocalDiscovery, Source::InboundConnection) => other,
            _ => self,
        }
    }
}

/// What is known of one peer.
#[derive(Debug, PartialEq, Eq)]
pub struct PeerRecord {
    /// Who the peer is.
    pub identity: PeerIdentity,
    /// Where the peer was last said to be reachable.
    pub addresses: Vec<PeerAddress>,
    /// When the peer was last heard of.
    pub last_seen: u64,
    /// The strongest source that has named the peer.
    pub source: Source,
}

/// A record as the contracts speak of it.
pub struct RecordView {
    pub identity: Seq<u8>,
    pub addresses: Seq<Seq<u8>>,
    pub last_seen: u64,
    pub source: Source,
}

impl View for PeerRecord {
    type V = RecordView;

    open spec fn view(&self) -> RecordView {
        RecordView {
            identity: self.identity@,
            addresses: self.addresses@.map_values(|a: PeerAddress| a@),
            last_seen: self.last_seen,
            source: self.source,
        }
    }
}

/// A copy of a list of addresses.
pub fn copy_addresses(addresses: &Vec<PeerAddress>) -> (r: Vec<PeerAddress>)
    ensures
        r@.map_values(|a: PeerAddress| a@) == addresses@.map_values(|a: PeerAddress| a@),
{
    let mut out: Vec<PeerAddress> = Vec::new();
    let mut i: usize = 0;
    while i < addresses.len()
        invariant
            i <= addresses@.len(),
            out@.len() == i,
            forall|j: int| 0 <= j < i ==> out@[j]@ == addresses@[j]@,
        decreases addresses@.len() - i,
    {
        out.push(addresses[i].clone());
        i += 1;
    }
    assert(out@.map_values(|a: PeerAddress| a@) =~= addresses@.map_values(|a: PeerAddress| a@));
    out
}

/// The addresses of a list, each once, in the order of their first
/// occurrence.
pub fn distinct_addresses(addresses: Vec<PeerAddress>) -> (r: Vec<PeerAddress>)
    ensures
        r@.map_values(|a: PeerAddress| a@) == distinct(addresses@.map_values(|a: PeerAddress| a@)),
{
    let ghost all = addresses@.map_values(|a: PeerAddress| a@);
    let mut out: Vec<PeerAddress> = Vec::new();
    let mut i: usize = 0;
    proof {
        assert(all.take(0) =~= Seq::<Seq<u8>>::empty());
        assert(out@.map_values(|a: PeerAddress| a@) =~= distinct(all.take(0)));
    }
    while i < addresses.len()
        invariant
            i <= addresses@.len(),
            all == addresses@.map_values(|a: PeerAddress| a@),
            out@.map_values(|a: PeerAddress| a@) == distinct(all.take(i as int)),
        decreases addresses@.len() - i,
    {
        let ghost done = out@.map_values(|a: PeerAddress| a@);
        proof {
            assert(all.take(i + 1).drop_last() =~= all.take(i as int));
            assert(all.take(i + 1).last() == addresses@[i as int]@);
        }
        let mut known = false;
        let mut j: usize = 0;
        while j < out.len()
            invariant
                j <= out@.len(),
                i < addresses@.len(),
                done == out@.map_values(|a: PeerAddress| a@),
                known == exists|k: int| 0 <= k < j && done[k] == addresses@[i as int]@,
            decreases out@.len() - j,
        {
            if out[j].same(&addresses[i]) {
                known = true;
                assert(done[j as int] == addresses@[i as int]@);
            }
            j += 1;
        }
        if !known {
            let copy = addresses[i].clone();
            proof {
                lemma_map_push(out@, |a: PeerAddress| a@, copy);
            }
            out.push(copy);
        }
        i += 1;
    }
    proof {
        assert(all.take(all.len() as int) =~= all);
    }
    out
}

impl Clone for PeerRecord {
    fn clone(&self) -> (r: Self)
        ensures
            r@ == self@,
    {
        PeerRecord {
            identity: self.identity.clone(),
            addresses: copy_addresses(&self.addresses),
            last_seen: self.last_seen,
            source: self.source,
        }
    }
}

/// The addresses of a list, each once, in the order of their first
/// occurrence.
pub open spec fn distinct(addresses: Seq<Seq<u8>>) -> Seq<Seq<u8>>
    decreases addresses.len(),
{
    if addresses.len() == 0 {
        Seq::empty()
    } else {
        let before = distinct(addresses.drop_last());
        if before.contains(addresses.last()) {
            before
        } else {
            before.push(addresses.last())
        }
    }
}

/// A record with each of its addresses listed once.
pub open spec fn tidy(record: RecordView) -> RecordView {
    RecordView { addresses: distinct(record.addresses), ..record }
}

/// Listing each address once loses none and brings in none.
pub proof fn lemma_distinct(addresses: Seq<Seq<u8>>)
    ensures
        distinct(addresses).no_duplicates(),
        forall|a: Seq<u8>| #[trigger] distinct(addresses).contains(a) <==> addresses.contains(a),
        addresses.no_duplicates() ==> distinct(addresses) == addresses,
    decreases addresses.len(),
{
    if addresses.len() > 0 {
        let rest = addresses.drop_last();
        let last = addresses.last();
        let before = distinct(rest);
        lemma_distinct(rest);
        if !before.contains(last) {
            lemma_push_fresh(before, last);
        }
        assert forall|a: Seq<u8>| #[trigger] distinct(addresses).contains(a) <==> addresses.contains(
            a,
        ) by {
            if distinct(addresses).contains(a) {
                let j = distinct(addresses).index_of(a);
                if j < before.len() {
                    assert(before[j] == a);
                    assert(before.contains(a));
                    let k = rest.index_of(a);
                    assert(addresses[k] == a);
                } else {
                    assert(addresses[addresses.len() - 1] == a);
                }
            }
            if addresses.contains(a) {
                let k = addresses.index_of(a);
                if k < rest.len() {
                    assert(rest[k] == a);
                    assert(rest.contains(a));
                    assert(before.contains(a));
                    let j = before.index_of(a);
                    assert(distinct(addresses)[j] == a);
                } else if before.contains(last) {
                } else {
                    assert(distinct(addresses)[before.len() as int] == a);
                }
            }
        }
        if addresses.no_duplicates() {
            assert(rest.no_duplicates());
            if before.contains(last) {
                let k = rest.index_of(last);
                assert(addresses[k] == addresses[addresses.len() - 1]);
            }
            assert(before.push(last) =~= addresses);
        }
    }
}

/// The identities of the records, in their order.
pub open spec fn ids(records: Seq<RecordView>) -> Seq<Seq<u8>> {
    records.map_values(|r: RecordView| r.identity)
}

/// What a record becomes when `news` of the same peer arrives: the time of
/// the later of the two, the addresses of the one seen last (those of `news`
/// where both were seen at one time), and the stronger source.
pub open spec fn merged(known: RecordView, news: RecordView) -> RecordView {
    RecordView {
        identity: known.identity,
        addresses: if news.last_seen >= known.last_seen {
            news.addresses
        } else {
            known.addresses
        },
        last_seen: if news.last_seen >= known.last_seen {
            news.last_seen
        } else {
            known.last_seen
        },
        source: known.source.stronger(news.source),
    }
}

/// The directory after `news` was merged in, each of its addresses once: the
/// record of its peer is updated where there is one, and `news` joins the end
/// where there is none.
pub open spec fn upserted(records: Seq<RecordView>, news: RecordView) -> Seq<RecordView> {
    match position(ids(records), news.identity) {
        Some(i) => records.update(i, merged(records[i], tidy(news))),
        None => records.push(tidy(news)),
    }
}

/// A directory is valid: it has one record per identity, and each record
/// lists each of its addresses once.
pub open spec fn valid_directory(records: Seq<RecordView>) -> bool {
    &&& ids(records).no_duplicates()
    &&& forall|i: int| 0 <= i < records.len() ==> (#[trigger] records[i]).addresses.no_duplicates()
}

/// The directory without the record of `identity`.
pub open spec fn removed(records: Seq<RecordView>, identity: Seq<u8>) -> Seq<RecordView> {
    match position(ids(records), identity) {
        Some(i) => records.remove(i),
        None => records,
    }
}

/// The addresses but for `address`, in their order.
pub open spec fn addresses_without(addresses: Seq<Seq<u8>>, address: Seq<u8>) -> Seq<Seq<u8>> {
    addresses.filter(|a: Seq<u8>| a != address)
}

/// What is left of a list of addresses without one is what the list held
/// besides it, and holds nothing twice where the list did not.
pub proof fn lemma_addresses_without(addresses: Seq<Seq<u8>>, address: Seq<u8>)
    ensures
        forall|a: Seq<u8>|
            #[trigger] addresses_without(addresses, address).contains(a) <==> (addresses.contains(a)
                && a != address),
        addresses.no_duplicates() ==> addresses_without(addresses, address).no_duplicates(),
    decreases addresses.len(),
{
    if addresses.no_duplicates() && addresses.len() > 0 {
        reveal(Seq::filter);
        let rest = addresses.drop_last();
        let last = addresses.last();
        lemma_addresses_without(rest, address);
        if last != address {
            if addresses_without(rest, address).contains(last) {
                let k = rest.index_of(last);
                assert(addresses[k] == addresses[addresses.len() - 1]);
            }
            lemma_push_fresh(addresses_without(rest, address), last);
        }
    } else if addresses.len() == 0 {
        reveal(Seq::filter);
    }

    broadcast use vstd::seq_lib::group_filter_ensures;
    broadcast use Seq::lemma_filter_contains_rev;

    let left = addresses_without(addresses, address);
    assert forall|a: Seq<u8>| #[trigger] left.contains(a) <==> (addresses.contains(a) && a
        != address) by {
        if left.contains(a) {
            let j = left.index_of(a);
            assert(left[j] != address);
        }
        if addresses.contains(a) && a != address {
            let k = addresses.index_of(a);
            assert(left.contains(addresses[k]));
        }
    }
}

/// The directory in which the record of `identity` no longer lists
/// `address`.
pub open spec fn address_dropped(
    records: Seq<RecordView>,
    identity: Seq<u8>,
    address: Seq<u8>,
) -> Seq<RecordView> {
    match position(ids(records), identity) {
        Some(i) => records.update(
            i,
            RecordView { addresses: addresses_without(records[i].addresses, address), ..records[i] },
        ),
        None => records,
    }
}

/// Whether a record is stale: it lists no address, and its peer has no
/// connection.
pub open spec fn stale(record: RecordView, connections: Seq<ConnectionView>) -> bool {
    record.addresses.len() == 0 && position(peers(connections), record.identity).is_none()
}

/// Whether a record learned by local discovery was last seen more than
/// `window` before `now`.
pub open spec fn expired(record: RecordView, now: u64, window: u64) -> bool {
    record.source == Source::LocalDiscovery && now > record.last_seen && now - record.last_seen
        > window
}

/// The directory after a run of records was merged in, one after the other.
pub open spec fn upserted_all(records: Seq<RecordView>, news: Seq<RecordView>) -> Seq<RecordView>
    decreases news.len(),
{
    if news.len() == 0 {
        records
    } else {
        upserted(upserted_all(records, news.drop_last()), news.last())
    }
}

/// The latest time at which a run of records saw `identity`; zero where none
/// of them is about it.
pub open spec fn latest_seen(news: Seq<RecordView>, identity: Seq<u8>) -> u64
    decreases news.len(),
{
    if news.len() == 0 {
        0
    } else {
        let before = latest_seen(news.drop_last(), identity);
        if news.last().identity == identity && news.last().last_seen >= before {
            news.last().last_seen
        } else {
            before
        }
    }
}

/// Whatever run of records is merged into an empty directory, the directory
/// then holds one record for each identity that the run names and no other,
/// and each record's last-seen time is the latest among the run's records of
/// that identity.
pub proof fn law_upsert_sequence(news: Seq<RecordView>)
    ensures
        ids(upserted_all(Seq::empty(), news)).no_duplicates(),
        ids(upserted_all(Seq::empty(), news)).to_set() == ids(news).to_set(),
        upserted_all(Seq::empty(), news).len() == ids(news).to_set().len(),
        forall|i: int|
            0 <= i < upserted_all(Seq::empty(), news).len() ==> (#[trigger] upserted_all(
                Seq::empty(),
                news,
            )[i]).last_seen == latest_seen(news, upserted_all(Seq::empty(), news)[i].identity),
    decreases news.len(),
{
    let after = upserted_all(Seq::empty(), news);
    if news.len() == 0 {
        assert(ids(after) =~= Seq::<Seq<u8>>::empty());
        assert(ids(news) =~= Seq::<Seq<u8>>::empty());
        assert(ids(news).to_set() =~= Set::<Seq<u8>>::empty());
    } else {
        let run = news.drop_last();
        let last = news.last();
        let before = upserted_all(Seq::empty(), run);
        law_upsert_sequence(run);
        assert(news =~= run.push(last));
        lemma_map_push(run, |r: RecordView| r.identity, last);
        ids(run).lemma_push_to_set_commute(last.identity);
        assert(ids(news).to_set() == ids(run).to_set().insert(last.identity));
        match position(ids(before), last.identity) {
            Some(p) => {
                lemma_map_update(before, |r: RecordView| r.identity, p, merged(before[p], tidy(last)));
                assert(ids(after) =~= ids(before));
                assert(ids(before).to_set().contains(last.identity));
                assert(ids(news).to_set() =~= ids(run).to_set());
                assert forall|i: int| 0 <= i < after.len() implies (#[trigger] after[i]).last_seen
                    == latest_seen(news, after[i].identity) by {
                    if i != p {
                        assert(ids(before)[i] != ids(before)[p]);
                    }
                }
            },
            None => {
                lemma_map_push(before, |r: RecordView| r.identity, tidy(last));
                lemma_push_fresh(ids(before), last.identity);
                ids(before).lemma_push_to_set_commute(last.identity);
                assert forall|i: int| 0 <= i < after.len() implies (#[trigger] after[i]).last_seen
                    == latest_seen(news, after[i].identity) by {
                    if i < before.len() {
                        assert(ids(before)[i] == before[i].identity);
                        assert(ids(before).contains(before[i].identity));
                    } else {
                        lemma_latest_of_unseen(run, last.identity);
                    }
                }
            },
        }
        ids(after).unique_seq_to_set();
    }
}

/// A run that names no record of `identity` has seen it at no time.
proof fn lemma_latest_of_unseen(news: Seq<RecordView>, identity: Seq<u8>)
    requires
        !ids(news).to_set().contains(identity),
    ensures
        latest_seen(news, identity) == 0,
    decreases news.len(),
{
    if news.len() > 0 {
        let run = news.drop_last();
        assert forall|k: Seq<u8>| ids(run).contains(k) implies ids(news).contains(k) by {
            let j = ids(run).index_of(k);
            assert(ids(news)[j] == k);
        }
        assert(ids(news)[news.len() - 1] == news.last().identity);
        assert(ids(news).contains(news.last().identity));
        lemma_latest_of_unseen(run, identity);
    }
}

/// When a directory last saw `identity`, if it knows it.
pub open spec fn seen_at(records: Seq<RecordView>, identity: Seq<u8>) -> Option<u64> {
    match position(ids(records), identity) {
        Some(i) => Some(records[i].last_seen),
        None => None,
    }
}

/// Merging a record in keeps every known peer, and takes no peer's last-seen
/// time back.
pub proof fn law_upsert_keeps_time(records: Seq<RecordView>, news: RecordView, identity: Seq<u8>)
    requires
        ids(records).no_duplicates(),
        seen_at(records, identity).is_some(),
    ensures
        seen_at(upserted(records, news), identity).is_some(),
        seen_at(upserted(records, news), identity).unwrap() >= seen_at(records, identity).unwrap(),
{
    let i = position(ids(records), identity).unwrap();
    let after = upserted(records, news);
    crate::index::lemma_position_valid(ids(records), identity);
    match position(ids(records), news.identity) {
        Some(p) => {
            crate::index::lemma_position_valid(ids(records), news.identity);
            lemma_map_update(records, |r: RecordView| r.identity, p, merged(records[p], tidy(news)));
            assert(ids(after) =~= ids(records));
        },
        None => {
            lemma_map_push(records, |r: RecordView| r.identity, tidy(news));
            lemma_push_fresh(ids(records), news.identity);
            assert(ids(after)[i] == identity);
            lemma_position_at(ids(after), i);
        },
    }
}

/// Striking an address changes no peer's last-seen time.
pub proof fn lemma_address_dropped_seen(
    records: Seq<RecordView>,
    peer: Seq<u8>,
    address: Seq<u8>,
    identity: Seq<u8>,
)
    requires
        ids(records).no_duplicates(),
    ensures
        seen_at(address_dropped(records, peer, address), identity) == seen_at(records, identity),
{
    match position(ids(records), peer) {
        Some(p) => {
            crate::index::lemma_position_valid(ids(records), peer);
            let cut = RecordView {
                addresses: addresses_without(records[p].addresses, address),
                ..records[p]
            };
            lemma_map_update(records, |r: RecordView| r.identity, p, cut);
            assert(ids(address_dropped(records, peer, address)) =~= ids(records));
            crate::index::lemma_position_valid(ids(records), identity);
        },
        None => {},
    }
}

/// A peer that is left after a directory was filtered was last seen when it
/// was before.
pub proof fn lemma_filter_seen(
    records: Seq<RecordView>,
    pred: spec_fn(RecordView) -> bool,
    identity: Seq<u8>,
)
    requires
        ids(records).no_duplicates(),
        seen_at(records.filter(pred), identity).is_some(),
    ensures
        seen_at(records, identity) == seen_at(records.filter(pred), identity),
{
    broadcast use Seq::lemma_filter_contains_rev;

    let kept = records.filter(pred);
    crate::index::lemma_position_valid(ids(kept), identity);
    let j = position(ids(kept), identity).unwrap();
    let found = kept[j];
    assert(kept.contains(found));
    assert(records.contains(found));
    let m = records.index_of(found);
    assert(ids(records)[m] == identity);
    lemma_position_at(ids(records), m);
}

/// The views of a list of records.
pub open spec fn views(records: Seq<PeerRecord>) -> Seq<RecordView> {
    records.map_values(|r: PeerRecord| r@)
}

/// A valid directory stays valid when it is filtered.
proof fn lemma_filter_valid(records: Seq<RecordView>, pred: spec_fn(RecordView) -> bool)
    requires
        valid_directory(records),
    ensures
        valid_directory(records.filter(pred)),
{
    broadcast use Seq::lemma_filter_contains_rev;

    lemma_filter_ids(records, pred);
    let kept = records.filter(pred);
    assert forall|i: int| 0 <= i < kept.len() implies (#[trigger] kept[i]).addresses.no_duplicates() by {
        assert(kept.contains(kept[i]));
        let m = records.index_of(kept[i]);
        assert(records[m].addresses.no_duplicates());
    }
}

/// Filtering a directory leaves each identity at most once, and no new one.
proof fn lemma_filter_ids(records: Seq<RecordView>, pred: spec_fn(RecordView) -> bool)
    requires
        ids(records).no_duplicates(),
    ensures
        ids(records.filter(pred)).no_duplicates(),
        forall|k: Seq<u8>| ids(records.filter(pred)).contains(k) ==> ids(records).contains(k),
    decreases records.len(),
{
    reveal(Seq::filter);
    if records.len() > 0 {
        let rest = records.drop_last();
        let last = records.last();
        assert(ids(rest) =~= ids(records).drop_last());
        lemma_filter_ids(rest, pred);
        let kept = rest.filter(pred);
        assert forall|k: Seq<u8>| ids(rest).contains(k) implies ids(records).contains(k) by {
            let j = ids(rest).index_of(k);
            assert(ids(records)[j] == k);
        }
        if pred(last) {
            if ids(kept).contains(last.identity) {
                assert(ids(rest).contains(last.identity));
                let j = ids(rest).index_of(last.identity);
                assert(0 <= j < rest.len());
                assert(ids(records)[j] == ids(rest)[j]);
                assert(ids(records)[records.len() - 1] == last.identity);
                assert(false);
            }
            lemma_push_fresh(ids(kept), last.identity);
            lemma_map_push(kept, |r: RecordView| r.identity, last);
            assert forall|k: Seq<u8>| ids(kept.push(last)).contains(k) implies ids(records).contains(
                k,
            ) by {
                let j = ids(kept.push(last)).index_of(k);
                if j < kept.len() {
                    assert(ids(kept)[j] == k);
                    assert(ids(kept).contains(k));
                } else {
                    assert(ids(records)[records.len() - 1] == k);
                }
            }
        }
    } else {
        assert(ids(records.filter(pred)) =~= Seq::<Seq<u8>>::empty());
    }
}

/// Splits a list of records by a flag per record: the records flagged `true`
/// and those flagged `false`, each in the list's order.
fn split(
    records: &Vec<PeerRecord>,
    flags: &Vec<bool>,
    Ghost(pred): Ghost<spec_fn(RecordView) -> bool>,
) -> (r: (Vec<PeerRecord>, Vec<PeerRecord>))
    requires
        flags@.len() == records@.len(),
        forall|i: int| 0 <= i < records@.len() ==> flags@[i] == pred(records@[i]@),
    ensures
        views(r.0@) == views(records@).filter(pred),
        views(r.1@) == views(records@).filter(|v: RecordView| !pred(v)),
{
    let mut yes: Vec<PeerRecord> = Vec::new();
    let mut no: Vec<PeerRecord> = Vec::new();
    let ghost all = views(records@);
    let ghost neg = |v: RecordView| !pred(v);
    let mut i: usize = 0;
    proof {
        reveal(Seq::filter);
        assert(all.take(0) =~= Seq::<RecordView>::empty());
        assert(views(yes@) =~= all.take(0).filter(pred));
        assert(views(no@) =~= all.take(0).filter(neg));
    }
    while i < records.len()
        invariant
            i <= records@.len(),
            flags@.len() == records@.len(),
            forall|j: int| 0 <= j < records@.len() ==> flags@[j] == pred(records@[j]@),
            all == views(records@),
            neg == |v: RecordView| !pred(v),
            views(yes@) == all.take(i as int).filter(pred),
            views(no@) == all.take(i as int).filter(neg),
        decreases records@.len() - i,
    {
        let record = records[i].clone();
        proof {
            assert(all.take(i + 1) =~= all.take(i as int).push(all[i as int]));
            all.take(i as int).lemma_filter_push(all[i as int], pred);
            all.take(i as int).lemma_filter_push(all[i as int], neg);
            lemma_map_push(yes@, |r: PeerRecord| r@, record);
            lemma_map_push(no@, |r: PeerRecord| r@, record);
        }
        if flags[i] {
            yes.push(record);
        } else {
            no.push(record);
        }
        i += 1;
    }
    proof {
        assert(all.take(all.len() as int) =~= all);
    }
    (yes, no)
}

/// What a snapshot of the directory holds: the records of the connected
/// peers, and those of the peers that are known but not connected.
#[derive(Debug, PartialEq, Eq)]
pub struct DirectorySnapshot {
    pub connected: Vec<PeerRecord>,
    pub unconnected: Vec<PeerRecord>,
}

/// The known peers.
#[derive(Debug)]
pub struct PeerDirectory {
    records: Vec<PeerRecord>,
}

impl View for PeerDirectory {
    type V = Seq<RecordView>;

    closed spec fn view(&self) -> Seq<RecordView> {
        views(self.records@)
    }
}

impl PeerDirectory {
    /// The directory's invariant.
    pub open spec fn wf(&self) -> bool {
        valid_directory(self@)
    }

    /// The empty directory.
    pub fn new() -> (dir: Self)
        ensures
            dir@ == Seq::<RecordView>::empty(),
            dir.wf(),
    {
        let dir = PeerDirectory { records: Vec::new() };
        assert(dir@ =~= Seq::<RecordView>::empty());
        dir
    }

    /// The number of records.
    pub fn len(&self) -> (n: usize)
        ensures
            n == self@.len(),
    {
        self.records.len()
    }

    /// Where the record of `identity` stands, if there is one.
    fn find(&self, identity: &PeerIdentity) -> (r: Option<usize>)
        requires
            self.wf(),
        ensures
            r matches Some(i) ==> i < self.records@.len() && position(ids(self@), identity@) == Some(
                i as int,
            ),
            r.is_none() ==> position(ids(self@), identity@).is_none(),
    {
        let mut i: usize = 0;
        while i < self.records.len()
            invariant
                self.wf(),
                i <= self.records@.len(),
                forall|j: int| 0 <= j < i ==> ids(self@)[j] != identity@,
            decreases self.records@.len() - i,
        {
            if self.records[i].identity.same(identity) {
                proof {
                    assert(ids(self@)[i as int] == identity@);
                    lemma_position_at(ids(self@), i as int);
                }
                return Some(i);
            }
            i += 1;
        }
        None
    }

    /// The record of `identity`, if there is one.
    pub fn get(&self, identity: &PeerIdentity) -> (r: Option<&PeerRecord>)
        requires
            self.wf(),
        ensures
            match position(ids(self@), identity@) {
                Some(i) => r.is_some() && r.unwrap()@ == self@[i],
                None => r.is_none(),
            },
    {
        match self.find(identity) {
            Some(i) => Some(&self.records[i]),
            None => None,
        }
    }

    /// Merges a newly learned record into the directory. Returns whether its
    /// peer was unknown before.
    pub fn upsert(&mut self, record: PeerRecord) -> (fresh: bool)
        requires
            old(self).wf(),
        ensures
            final(self).wf(),
            final(self)@ == upserted(old(self)@, record@),
            fresh == position(ids(old(self)@), record@.identity).is_none(),
    {
        let ghost before = self@;
        let ghost news = record@;
        let record = PeerRecord {
            identity: record.identity,
            addresses: distinct_addresses(record.addresses),
            last_seen: record.last_seen,
            source: record.source,
        };
        proof {
            assert(record@ == tidy(news));
            lemma_distinct(news.addresses);
        }
        match self.find(&record.identity) {
            Some(i) => {
                let known = self.records.remove(i);
                let newer = record.last_seen >= known.last_seen;
                let source = known.source.strongest(record.source);
                let united = if newer {
                    PeerRecord {
                        identity: known.identity,
                        addresses: record.addresses,
                        last_seen: record.last_seen,
                        source,
                    }
                } else {
                    PeerRecord {
                        identity: known.identity,
                        addresses: known.addresses,
                        last_seen: known.last_seen,
                        source,
                    }
                };
                assert(united@ == merged(before[i as int], record@));
                self.records.insert(i, united);
                proof {
                    assert(self@ =~= before.update(i as int, united@));
                    assert(ids(self@) =~= ids(before));
                    assert forall|j: int| 0 <= j < self@.len() implies (
                    #[trigger] self@[j]).addresses.no_duplicates() by {
                        if j != i {
                            assert(self@[j] == before[j]);
                        }
                    }
                }
                false
            },
            None => {
                proof {
                    lemma_map_push(self.records@, |r: PeerRecord| r@, record);
                    lemma_map_push(before, |r: RecordView| r.identity, record@);
                    lemma_push_fresh(ids(before), record@.identity);
                }
                self.records.push(record);
                proof {
                    assert forall|j: int| 0 <= j < self@.len() implies (
                    #[trigger] self@[j]).addresses.no_duplicates() by {
                        if j < before.len() {
                            assert(self@[j] == before[j]);
                        }
                    }
                }
                true
            },
        }
    }

    /// Takes the record of `identity` out of the directory. Returns the
    /// record, or `None` where the peer was not known.
    pub fn remove(&mut self, identity: &PeerIdentity) -> (gone: Option<PeerRecord>)
        requires
            old(self).wf(),
        ensures
            final(self).wf(),
            final(self)@ == removed(old(self)@, identity@),
            position(ids(final(self)@), identity@).is_none(),
            match position(ids(old(self)@), identity@) {
                Some(i) => gone.is_some() && gone.unwrap()@ == old(self)@[i],
                None => gone.is_none(),
            },
    {
        let ghost before = self@;
        match self.find(identity) {
            Some(i) => {
                proof {
                    lemma_map_remove(self.records@, |r: PeerRecord| r@, i as int);
                    lemma_map_remove(before, |r: RecordView| r.identity, i as int);
                    lemma_remove_key(ids(before), i as int);
                }
                Some(self.records.remove(i))
            },
            None => None,
        }
    }

    /// Strikes `address` from the record of `identity`: the peer is no longer
    /// reachable there.
    pub fn forget_address(&mut self, identity: &PeerIdentity, address: &PeerAddress)
        requires
            old(self).wf(),
        ensures
            final(self).wf(),
            final(self)@ == address_dropped(old(self)@, identity@, address@),
    {
        let ghost before = self@;
        match self.find(identity) {
            Some(i) => {
                let known = self.records.remove(i);
                let ghost all = known@.addresses;
                let ghost pred = |a: Seq<u8>| a != address@;
                let mut left: Vec<PeerAddress> = Vec::new();
                let mut j: usize = 0;
                proof {
                    reveal(Seq::filter);
                    assert(all.take(0) =~= Seq::<Seq<u8>>::empty());
                    assert(left@.map_values(|a: PeerAddress| a@) =~= all.take(0).filter(pred));
                }
                while j < known.addresses.len()
                    invariant
                        j <= known.addresses@.len(),
                        all == known.addresses@.map_values(|a: PeerAddress| a@),
                        pred == |a: Seq<u8>| a != address@,
                        left@.map_values(|a: PeerAddress| a@) == all.take(j as int).filter(pred),
                    decreases known.addresses@.len() - j,
                {
                    proof {
                        assert(all.take(j + 1) =~= all.take(j as int).push(all[j as int]));
                        all.take(j as int).lemma_filter_push(all[j as int], pred);
                    }
                    if !known.addresses[j].same(address) {
                        let kept = known.addresses[j].clone();
                        proof {
                            lemma_map_push(left@, |a: PeerAddress| a@, kept);
                        }
                        left.push(kept);
                    }
                    j += 1;
                }
                proof {
                    assert(all.take(all.len() as int) =~= all);
                }
                let cut = PeerRecord {
                    identity: known.identity,
                    addresses: left,
                    last_seen: known.last_seen,
                    source: known.source,
                };
                self.records.insert(i, cut);
                proof {
                    assert(self@ =~= before.update(i as int, cut@));
                    assert(ids(self@) =~= ids(before));
                    assert(before[i as int].addresses.no_duplicates());
                    lemma_addresses_without(all, address@);
                    assert forall|j: int| 0 <= j < self@.len() implies (
                    #[trigger] self@[j]).addresses.no_duplicates() by {
                        if j != i {
                            assert(self@[j] == before[j]);
                        }
                    }
                }
            },
            None => {},
        }
    }

    /// The consistency check: takes out every record that lists no address
    /// and whose peer has no connection. Returns the records taken out.
    pub fn prune(&mut self, connections: &ConnectionTable) -> (gone: Vec<PeerRecord>)
        requires
            old(self).wf(),
            connections.wf(),
        ensures
            final(self).wf(),
            final(self)@ == old(self)@.filter(|r: RecordView| !stale(r, connections@)),
            views(gone@) == old(self)@.filter(|r: RecordView| stale(r, connections@)),
    {
        let ghost pred = |r: RecordView| !stale(r, connections@);
        let mut flags: Vec<bool> = Vec::new();
        let mut i: usize = 0;
        while i < self.records.len()
            invariant
                connections.wf(),
                i <= self.records@.len(),
                flags@.len() == i,
                pred == |r: RecordView| !stale(r, connections@),
                forall|j: int| 0 <= j < i ==> flags@[j] == pred(self.records@[j]@),
            decreases self.records@.len() - i,
        {
            let record = &self.records[i];
            let keep = record.addresses.len() > 0 || connections.get(&record.identity).is_some();
            flags.push(keep);
            i += 1;
        }
        let (kept, gone) = split(&self.records, &flags, Ghost(pred));
        proof {
            lemma_filter_valid(self@, pred);
            assert(views(gone@) =~= self@.filter(|r: RecordView| stale(r, connections@))) by {
                let a = |v: RecordView| !pred(v);
                let b = |r: RecordView| stale(r, connections@);
                assert(a =~= b);
            }
        }
        self.records = kept;
        gone
    }

    /// Takes out every record learned by local discovery that was last seen
    /// more than `window` before `now`. Returns the records taken out.
    pub fn expire(&mut self, now: u64, window: u64) -> (gone: Vec<PeerRecord>)
        requires
            old(self).wf(),
        ensures
            final(self).wf(),
            final(self)@ == old(self)@.filter(|r: RecordView| !expired(r, now, window)),
            views(gone@) == old(self)@.filter(|r: RecordView| expired(r, now, window)),
    {
        let ghost pred = |r: RecordView| !expired(r, now, window);
        let mut flags: Vec<bool> = Vec::new();
        let mut i: usize = 0;
        while i < self.records.len()
            invariant
                i <= self.records@.len(),
                flags@.len() == i,
                pred == |r: RecordView| !expired(r, now, window),
                forall|j: int| 0 <= j < i ==> flags@[j] == pred(self.records@[j]@),
            decreases self.records@.len() - i,
        {
            let record = &self.records[i];
            let local = match record.source {
                Source::LocalDiscovery => true,
                _ => false,
            };
            let late = local && now > record.last_seen && now - record.last_seen > window;
            flags.push(!late);
            i += 1;
        }
        let (kept, gone) = split(&self.records, &flags, Ghost(pred));
        proof {
            lemma_filter_valid(self@, pred);
            assert(views(gone@) =~= self@.filter(|r: RecordView| expired(r, now, window))) by {
                let a = |v: RecordView| !pred(v);
                let b = |r: RecordView| expired(r, now, window);
                assert(a =~= b);
            }
        }
        self.records = kept;
        gone
    }

    /// The directory as others may read it: the records of the peers with an
    /// established connection, and the records of all others, each in the
    /// directory's order.
    pub fn snapshot(&self, connections: &ConnectionTable) -> (snap: DirectorySnapshot)
        requires
            self.wf(),
            connections.wf(),
        ensures
            views(snap.connected@) == self@.filter(
                |r: RecordView| is_connected(connections@, r.identity),
            ),
            views(snap.unconnected@) == self@.filter(
                |r: RecordView| !is_connected(connections@, r.identity),
            ),
    {
        let ghost pred = |r: RecordView| is_connected(connections@, r.identity);
        let mut flags: Vec<bool> = Vec::new();
        let mut i: usize = 0;
        while i < self.records.len()
            invariant
                connections.wf(),
                i <= self.records@.len(),
                flags@.len() == i,
                pred == |r: RecordView| is_connected(connections@, r.identity),
                forall|j: int| 0 <= j < i ==> flags@[j] == pred(self.records@[j]@),
            decreases self.records@.len() - i,
        {
            flags.push(connections.is_established(&self.records[i].identity));
            i += 1;
        }
        let (connected, unconnected) = split(&self.records, &flags, Ghost(pred));
        proof {
            let a = |v: RecordView| !pred(v);
            let b = |r: RecordView| !is_connected(connections@, r.identity);
            assert(a =~= b);
        }
        DirectorySnapshot { connected, unconnected }
    }
}

} // verus!
