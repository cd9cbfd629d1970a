//! The routing table: known peers in buckets by XOR distance from this node.
//!
//! The table has one bucket for each bit of a routing key. A peer's bucket is
//! the position of the highest bit in which its key differs from the node's
//! own. No bucket holds more than the table's capacity: a full bucket gives
//! up its least recently seen entry, and only to a newcomer that was seen
//! later or is closer.

use crate::identity::{PeerAddress, PeerIdentity};
use crate::index::{
    lemma_map_push, lemma_map_remove, lemma_map_update, lemma_position_at, lemma_push_fresh,
    lemma_remove_key, position,
};
use crate::keyspace::{bucket_of, distance, kad_key_bytes, RoutingKey, KEY_BITS, KEY_LEN};
use vstd::prelude::*;

verus! {

/// The capacity of a bucket unless the table is made with another.
pub const DEFAULT_BUCKET_CAPACITY: usize = 20;

/// The largest capacity a table can be made with.
pub const MAX_BUCKET_CAPACITY: usize = 65536;

/// A peer in the routing table.
#[derive(Debug, PartialEq, Eq)]
pub struct RoutingEntry {
    pub key: RoutingKey,
    pub identity: PeerIdentity,
    pub address: PeerAddress,
    pub last_seen: u64,
}

/// An entry as the contracts speak of it.
pub struct EntryView {
    pub key: Seq<u8>,
    pub identity: Seq<u8>,
    pub address: Seq<u8>,
    pub last_seen: u64,
}

impl View for RoutingEntry {
    type V = EntryView;

    open spec fn view(&self) -> EntryView {
        EntryView {
            key: self.key@,
            identity: self.identity@,
            address: self.address@,
            last_seen: self.last_seen,
        }
    }
}

impl Clone for RoutingEntry {
    fn clone(&self) -> (r: Self)
        ensures
            r@ == self@,
    {
        RoutingEntry {
            key: self.key,
            identity: self.identity.clone(),
            address: self.address.clone(),
            last_seen: self.last_seen,
        }
    }
}

impl RoutingEntry {
    /// The entry of a peer, under the routing key of its identity.
    pub fn new(identity: PeerIdentity, address: PeerAddress, last_seen: u64) -> (entry: Self)
        ensures
            entry@ == (EntryView {
                key: kad_key_bytes(identity@),
                identity: identity@,
                address: address@,
                last_seen,
            }),
    {
        let key = RoutingKey::of(&identity);
        RoutingEntry { key, identity, address, last_seen }
    }
}

/// A routing table as the contracts speak of it.
pub struct TableView {
    pub local: Seq<u8>,
    pub capacity: nat,
    pub buckets: Seq<Seq<EntryView>>,
}

/// What became of an entry that was offered to the table.
#[derive(Debug, PartialEq, Eq)]
pub enum AddOutcome {
    /// The key is the node's own: the table does not hold it.
    Local,
    /// The key was in the table: its entry was refreshed.
    Refreshed,
    /// The entry joined a bucket that had room.
    Added,
    /// The bucket was full: the entry took the place of the one given here.
    Replaced(RoutingEntry),
    /// The bucket was full and kept what it had.
    Full,
}

/// An outcome as the contracts speak of it.
pub enum Verdict {
    Local,
    Refreshed,
    Added,
    Replaced(EntryView),
    Full,
}

impl View for AddOutcome {
    type V = Verdict;

    open spec fn view(&self) -> Verdict {
        match self {
            AddOutcome::Local => Verdict::Local,
            AddOutcome::Refreshed => Verdict::Refreshed,
            AddOutcome::Added => Verdict::Added,
            AddOutcome::Replaced(entry) => Verdict::Replaced(entry@),
            AddOutcome::Full => Verdict::Full,
        }
    }
}

/// The keys of a bucket's entries, in its order.
pub open spec fn keys(bucket: Seq<EntryView>) -> Seq<Seq<u8>> {
    bucket.map_values(|e: EntryView| e.key)
}

/// The views of a list of entries.
pub open spec fn entry_views(entries: Seq<RoutingEntry>) -> Seq<EntryView> {
    entries.map_values(|e: RoutingEntry| e@)
}

/// A bucket is valid at position `index` of a table around `local`: it is
/// within the capacity, holds each key once, and holds only keys that belong
/// at `index`.
pub open spec fn valid_bucket(
    bucket: Seq<EntryView>,
    local: Seq<u8>,
    index: int,
    capacity: nat,
) -> bool {
    &&& bucket.len() <= capacity
    &&& keys(bucket).no_duplicates()
    &&& forall|i: int|
        0 <= i < bucket.len() ==> bucket_of(local, (#[trigger] bucket[i]).key) == Some(index)
}

/// A table is valid: it has a bucket for each bit of a key, a capacity of at
/// least one, and only valid buckets.
pub open spec fn valid(table: TableView) -> bool {
    &&& table.local.len() == KEY_LEN
    &&& 1 <= table.capacity <= MAX_BUCKET_CAPACITY
    &&& table.buckets.len() == KEY_BITS
    &&& forall|b: int|
        0 <= b < table.buckets.len() ==> valid_bucket(
            #[trigger] table.buckets[b],
            table.local,
            b,
            table.capacity,
        )
}

/// The table around `local` that holds no entry.
pub open spec fn empty_table(local: Seq<u8>, capacity: nat) -> TableView {
    TableView { local, capacity, buckets: Seq::new(KEY_BITS as nat, |b: int| Seq::empty()) }
}

/// Whether the table holds `entry`.
pub open spec fn holds(table: TableView, entry: EntryView) -> bool {
    exists|b: int, i: int|
        0 <= b < table.buckets.len() && 0 <= i < table.buckets[b].len() && table.buckets[b][i]
            == entry
}

/// The number of entries in a run of buckets.
pub open spec fn total(buckets: Seq<Seq<EntryView>>) -> nat
    decreases buckets.len(),
{
    if buckets.len() == 0 {
        0
    } else {
        total(buckets.drop_last()) + buckets.last().len()
    }
}

/// The position of a bucket's least recently seen entry: the first among
/// those with the earliest time. Zero for an empty bucket.
pub open spec fn oldest(bucket: Seq<EntryView>) -> int
    decreases bucket.len(),
{
    if bucket.len() <= 1 {
        0
    } else {
        let before = oldest(bucket.drop_last());
        if bucket.last().last_seen < bucket[before].last_seen {
            bucket.len() - 1
        } else {
            before
        }
    }
}

/// Whether a newcomer may take the place of a full bucket's least recently
/// seen entry: it was seen later, or it is closer to the node.
pub open spec fn displaces(local: Seq<u8>, newcomer: EntryView, victim: EntryView) -> bool {
    newcomer.last_seen > victim.last_seen || distance(local, newcomer.key) < distance(
        local,
        victim.key,
    )
}

/// An entry refreshed by a newer sighting: the newcomer's identity and
/// address, and the later of the two times.
pub open spec fn refreshed(known: EntryView, newcomer: EntryView) -> EntryView {
    EntryView {
        last_seen: if newcomer.last_seen >= known.last_seen {
            newcomer.last_seen
        } else {
            known.last_seen
        },
        ..newcomer
    }
}

/// A bucket after `entry` was offered to it.
pub open spec fn bucket_inserted(
    bucket: Seq<EntryView>,
    entry: EntryView,
    local: Seq<u8>,
    capacity: nat,
) -> Seq<EntryView> {
    match position(keys(bucket), entry.key) {
        Some(i) => bucket.update(i, refreshed(bucket[i], entry)),
        None => if bucket.len() < capacity {
            bucket.push(entry)
        } else if displaces(local, entry, bucket[oldest(bucket)]) {
            bucket.remove(oldest(bucket)).push(entry)
        } else {
            bucket
        },
    }
}

/// A table after `entry` was offered to it.
pub open spec fn inserted(table: TableView, entry: EntryView) -> TableView {
    match bucket_of(table.local, entry.key) {
        Some(b) => TableView {
            buckets: table.buckets.update(
                b,
                bucket_inserted(table.buckets[b], entry, table.local, table.capacity),
            ),
            ..table
        },
        None => table,
    }
}

/// What becomes of `entry` when it is offered to the table.
pub open spec fn verdict(table: TableView, entry: EntryView) -> Verdict {
    match bucket_of(table.local, entry.key) {
        Some(b) => {
            let bucket = table.buckets[b];
            match position(keys(bucket), entry.key) {
                Some(_) => Verdict::Refreshed,
                None => if bucket.len() < table.capacity {
                    Verdict::Added
                } else if displaces(table.local, entry, bucket[oldest(bucket)]) {
                    Verdict::Replaced(bucket[oldest(bucket)])
                } else {
                    Verdict::Full
                },
            }
        },
        None => Verdict::Local,
    }
}

/// A table without the entry of `key`.
pub open spec fn without(table: TableView, key: Seq<u8>) -> TableView {
    match bucket_of(table.local, key) {
        Some(b) => match position(keys(table.buckets[b]), key) {
            Some(i) => TableView {
                buckets: table.buckets.update(b, table.buckets[b].remove(i)),
                ..table
            },
            None => table,
        },
        None => table,
    }
}

/// The least recently seen entry of a bucket that is not empty stands in
/// the bucket.
pub proof fn lemma_oldest_in_range(bucket: Seq<EntryView>)
    requires
        bucket.len() > 0,
    ensures
        0 <= oldest(bucket) < bucket.len(),
        forall|i: int|
            0 <= i < bucket.len() ==> bucket[oldest(bucket)].last_seen <= (#[trigger] bucket[i]).last_seen,
    decreases bucket.len(),
{
    if bucket.len() > 1 {
        let rest = bucket.drop_last();
        lemma_oldest_in_range(rest);
        assert forall|i: int| 0 <= i < bucket.len() implies bucket[oldest(bucket)].last_seen <= (
        #[trigger] bucket[i]).last_seen by {
            if i < rest.len() {
                assert(rest[i] == bucket[i]);
                assert(rest[oldest(rest)] == bucket[oldest(rest)]);
            }
        }
    }
}

/// Offering an entry to a valid table leaves a valid table.
pub proof fn lemma_inserted_valid(table: TableView, entry: EntryView)
    requires
        valid(table),
    ensures
        valid(inserted(table, entry)),
{
    match bucket_of(table.local, entry.key) {
        Some(b) => {
            crate::keyspace::lemma_bucket_range(table.local, entry.key);
            let bucket = table.buckets[b];
            let after = bucket_inserted(bucket, entry, table.local, table.capacity);
            assert(valid_bucket(bucket, table.local, b, table.capacity));
            match position(keys(bucket), entry.key) {
                Some(i) => {
                    lemma_map_update(bucket, |e: EntryView| e.key, i, refreshed(bucket[i], entry));
                    assert(keys(after) =~= keys(bucket));
                },
                None => {
                    if bucket.len() < table.capacity {
                        lemma_map_push(bucket, |e: EntryView| e.key, entry);
                        lemma_push_fresh(keys(bucket), entry.key);
                    } else if displaces(table.local, entry, bucket[oldest(bucket)]) {
                        let o = oldest(bucket);
                        lemma_oldest_in_range(bucket);
                        lemma_map_remove(bucket, |e: EntryView| e.key, o);
                        lemma_remove_key(keys(bucket), o);
                        lemma_map_push(bucket.remove(o), |e: EntryView| e.key, entry);
                        lemma_push_fresh(keys(bucket.remove(o)), entry.key);
                    }
                },
            }
            assert(valid_bucket(after, table.local, b, table.capacity));
            let next = inserted(table, entry);
            assert forall|c: int| 0 <= c < next.buckets.len() implies valid_bucket(
                #[trigger] next.buckets[c],
                next.local,
                c,
                next.capacity,
            ) by {
                if c != b {
                    assert(next.buckets[c] == table.buckets[c]);
                }
            }
        },
        None => {},
    }
}

/// Taking a key out of a valid table leaves a valid table.
pub proof fn lemma_without_valid(table: TableView, key: Seq<u8>)
    requires
        valid(table),
    ensures
        valid(without(table, key)),
{
    match bucket_of(table.local, key) {
        Some(b) => {
            crate::keyspace::lemma_bucket_range(table.local, key);
            let bucket = table.buckets[b];
            assert(valid_bucket(bucket, table.local, b, table.capacity));
            match position(keys(bucket), key) {
                Some(i) => {
                    lemma_map_remove(bucket, |e: EntryView| e.key, i);
                    lemma_remove_key(keys(bucket), i);
                    let next = without(table, key);
                    assert(valid_bucket(bucket.remove(i), table.local, b, table.capacity));
                    assert forall|c: int| 0 <= c < next.buckets.len() implies valid_bucket(
                        #[trigger] next.buckets[c],
                        next.local,
                        c,
                        next.capacity,
                    ) by {
                        if c != b {
                            assert(next.buckets[c] == table.buckets[c]);
                        }
                    }
                },
                None => {},
            }
        },
        None => {},
    }
}

/// The entries of a run of buckets, bucket after bucket.
pub open spec fn flat(buckets: Seq<Seq<EntryView>>) -> Seq<EntryView>
    decreases buckets.len(),
{
    if buckets.len() == 0 {
        Seq::empty()
    } else {
        flat(buckets.drop_last()) + buckets.last()
    }
}

/// Whether a list of entries is in the order of their distance from
/// `target`, nearest first.
pub open spec fn nearest_first(target: Seq<u8>, entries: Seq<EntryView>) -> bool {
    forall|i: int, j: int|
        0 <= i < j < entries.len() ==> distance(target, (#[trigger] entries[i]).key) <= distance(
            target,
            (#[trigger] entries[j]).key,
        )
}

/// The identities of a list of entries, in its order.
pub open spec fn identities(entries: Seq<EntryView>) -> Seq<Seq<u8>> {
    entries.map_values(|e: EntryView| e.identity)
}

/// Every entry of a bucket stands among the entries of the run.
proof fn lemma_flat_holds(buckets: Seq<Seq<EntryView>>, b: int, i: int)
    requires
        0 <= b < buckets.len(),
        0 <= i < buckets[b].len(),
    ensures
        flat(buckets).contains(buckets[b][i]),
    decreases buckets.len(),
{
    let rest = buckets.drop_last();
    if b == buckets.len() - 1 {
        assert(flat(buckets)[flat(rest).len() + i] == buckets[b][i]);
    } else {
        lemma_flat_holds(rest, b, i);
        let p = flat(rest).index_of(buckets[b][i]);
        assert(flat(buckets)[p] == buckets[b][i]);
    }
}

/// Every entry of the run stands in one of its buckets.
proof fn lemma_flat_source(buckets: Seq<Seq<EntryView>>, p: int) -> (at: (int, int))
    requires
        0 <= p < flat(buckets).len(),
    ensures
        0 <= at.0 < buckets.len(),
        0 <= at.1 < buckets[at.0].len(),
        buckets[at.0][at.1] == flat(buckets)[p],
    decreases buckets.len(),
{
    let rest = buckets.drop_last();
    if p < flat(rest).len() {
        lemma_flat_source(rest, p)
    } else {
        (buckets.len() - 1, p - flat(rest).len())
    }
}

/// The count of a run of buckets is the number of its entries.
proof fn lemma_total_flat(buckets: Seq<Seq<EntryView>>)
    ensures
        total(buckets) == flat(buckets).len(),
    decreases buckets.len(),
{
    if buckets.len() > 0 {
        lemma_total_flat(buckets.drop_last());
    }
}

/// A run of `n` buckets within the capacity holds at most `n` times the
/// capacity.
proof fn lemma_total_bound(buckets: Seq<Seq<EntryView>>, capacity: nat)
    requires
        forall|b: int| 0 <= b < buckets.len() ==> (#[trigger] buckets[b]).len() <= capacity,
    ensures
        total(buckets) <= buckets.len() * capacity,
    decreases buckets.len(),
{
    if buckets.len() > 0 {
        let rest = buckets.drop_last();
        assert forall|b: int| 0 <= b < rest.len() implies (#[trigger] rest[b]).len() <= capacity by {
            assert(rest[b] == buckets[b]);
        }
        lemma_total_bound(rest, capacity);
        assert((rest.len() + 1) * capacity == rest.len() * capacity + capacity) by (nonlinear_arith);
    }
}

/// The buckets of a valid table hold each key once between them.
proof fn lemma_flat_keys(buckets: Seq<Seq<EntryView>>, local: Seq<u8>, capacity: nat)
    requires
        forall|b: int| 0 <= b < buckets.len() ==> valid_bucket(#[trigger] buckets[b], local, b, capacity),
    ensures
        keys(flat(buckets)).no_duplicates(),
    decreases buckets.len(),
{
    if buckets.len() > 0 {
        let rest = buckets.drop_last();
        let last = buckets.last();
        assert forall|b: int| 0 <= b < rest.len() implies valid_bucket(
            #[trigger] rest[b],
            local,
            b,
            capacity,
        ) by {
            assert(rest[b] == buckets[b]);
        }
        lemma_flat_keys(rest, local, capacity);
        assert(valid_bucket(last, local, buckets.len() - 1, capacity));
        let a = keys(flat(rest));
        let z = keys(last);
        assert forall|i: int, j: int| 0 <= i < a.len() && 0 <= j < z.len() implies a[i] != z[j] by {
            let at = lemma_flat_source(rest, i);
            assert(valid_bucket(rest[at.0], local, at.0, capacity));
            assert(bucket_of(local, rest[at.0][at.1].key) == Some(at.0));
            assert(bucket_of(local, last[j].key) == Some(buckets.len() - 1));
        }
        vstd::seq_lib::lemma_no_dup_in_concat(a, z);
        assert(keys(flat(buckets)) =~= a + z);
    } else {
        assert(keys(flat(buckets)) =~= Seq::<Seq<u8>>::empty());
    }
}

/// Adds copies of a bucket's entries to the end of a list.
fn append_copies(all: &mut Vec<RoutingEntry>, bucket: &Vec<RoutingEntry>)
    ensures
        entry_views(final(all)@) == entry_views(old(all)@) + entry_views(bucket@),
{
    let ghost start = entry_views(all@);
    let mut k: usize = 0;
    proof {
        assert(entry_views(all@) =~= start + entry_views(bucket@).take(0));
    }
    while k < bucket.len()
        invariant
            k <= bucket@.len(),
            entry_views(all@) == start + entry_views(bucket@).take(k as int),
        decreases bucket@.len() - k,
    {
        let copy = bucket[k].clone();
        proof {
            lemma_map_push(all@, |e: RoutingEntry| e@, copy);
            assert((start + entry_views(bucket@).take(k as int)).push(copy@) =~= start + entry_views(
                bucket@,
            ).take(k + 1));
        }
        all.push(copy);
        k += 1;
    }
    proof {
        assert(entry_views(bucket@).take(bucket@.len() as int) =~= entry_views(bucket@));
    }
}

/// Where `key` stands in a bucket, if it stands there.
fn find_key(bucket: &Vec<RoutingEntry>, key: &RoutingKey) -> (r: Option<usize>)
    requires
        keys(entry_views(bucket@)).no_duplicates(),
    ensures
        r matches Some(i) ==> i < bucket@.len() && position(keys(entry_views(bucket@)), key@) == Some(
            i as int,
        ),
        r.is_none() ==> position(keys(entry_views(bucket@)), key@).is_none(),
{
    let mut i: usize = 0;
    while i < bucket.len()
        invariant
            keys(entry_views(bucket@)).no_duplicates(),
            i <= bucket@.len(),
            forall|j: int| 0 <= j < i ==> keys(entry_views(bucket@))[j] != key@,
        decreases bucket@.len() - i,
    {
        if bucket[i].key.same(key) {
            proof {
                assert(keys(entry_views(bucket@))[i as int] == key@);
                lemma_position_at(keys(entry_views(bucket@)), i as int);
            }
            return Some(i);
        }
        i += 1;
    }
    None
}

/// The position of the least recently seen entry of a bucket.
fn oldest_index(bucket: &Vec<RoutingEntry>) -> (r: usize)
    requires
        bucket@.len() > 0,
    ensures
        r == oldest(entry_views(bucket@)),
        r < bucket@.len(),
{
    let ghost all = entry_views(bucket@);
    let mut best: usize = 0;
    let mut i: usize = 1;
    proof {
        assert(all.take(1).len() == 1);
    }
    while i < bucket.len()
        invariant
            1 <= i <= bucket@.len(),
            all == entry_views(bucket@),
            best < i,
            best == oldest(all.take(i as int)),
        decreases bucket@.len() - i,
    {
        proof {
            assert(all.take(i + 1).drop_last() =~= all.take(i as int));
            assert(all.take(i + 1).last() == all[i as int]);
            assert(all.take(i + 1)[best as int] == all[best as int]);
        }
        if bucket[i].last_seen < bucket[best].last_seen {
            best = i;
        }
        i += 1;
    }
    proof {
        assert(all.take(all.len() as int) =~= all);
    }
    best
}

/// Puts a list of entries in the order of their distance from `target`,
/// nearest first.
fn sort_nearest(target: &RoutingKey, all: Vec<RoutingEntry>) -> (sorted: Vec<RoutingEntry>)
    requires
        keys(entry_views(all@)).no_duplicates(),
    ensures
        sorted@.len() == all@.len(),
        nearest_first(target@, entry_views(sorted@)),
        keys(entry_views(sorted@)).no_duplicates(),
        forall|i: int|
            0 <= i < sorted@.len() ==> entry_views(all@).contains(#[trigger] entry_views(sorted@)[i]),
        forall|j: int|
            0 <= j < all@.len() ==> entry_views(sorted@).contains(#[trigger] entry_views(all@)[j]),
{
    let ghost orig = entry_views(all@);
    let mut rest = all;
    let mut sorted: Vec<RoutingEntry> = Vec::new();
    let ghost mut src: Seq<int> = Seq::empty();
    proof {
        assert(entry_views(rest@) =~= orig.take(rest@.len() as int));
        assert(keys(entry_views(sorted@)) =~= Seq::<Seq<u8>>::empty());
    }
    while rest.len() > 0
        invariant
            orig == entry_views(all@),
            keys(orig).no_duplicates(),
            rest@.len() <= orig.len(),
            entry_views(rest@) == orig.take(rest@.len() as int),
            sorted@.len() + rest@.len() == orig.len(),
            src.len() == sorted@.len(),
            forall|i: int|
                0 <= i < sorted@.len() ==> rest@.len() <= #[trigger] src[i] < orig.len() && orig[src[i]]
                    == entry_views(sorted@)[i],
            forall|j: int|
                rest@.len() <= j < orig.len() ==> entry_views(sorted@).contains(#[trigger] orig[j]),
            nearest_first(target@, entry_views(sorted@)),
            keys(entry_views(sorted@)).no_duplicates(),
        decreases rest@.len(),
    {
        let ghost m = rest@.len() - 1;
        let ghost before = entry_views(sorted@);
        let ghost rest_before = entry_views(rest@);
        let entry = rest.pop().unwrap();
        proof {
            assert(entry@ == rest_before[m]);
            assert(entry@ == orig[m]);
            assert(entry_views(rest@) =~= orig.take(m));
        }
        let mut p: usize = 0;
        while p < sorted.len() && !target.closer(&entry.key, &sorted[p].key)
            invariant
                p <= sorted@.len(),
                before == entry_views(sorted@),
                forall|i: int|
                    0 <= i < p ==> distance(target@, (#[trigger] before[i]).key) <= distance(
                        target@,
                        entry@.key,
                    ),
            decreases sorted@.len() - p,
        {
            p += 1;
        }
        proof {
            lemma_map_insert(sorted@, |e: RoutingEntry| e@, p as int, entry);
        }
        sorted.insert(p, entry);
        proof {
            let after = entry_views(sorted@);
            assert(after == before.insert(p as int, orig[m]));
            let old_src = src;
            src = src.insert(p as int, m);
            assert forall|i: int| 0 <= i < after.len() implies m <= #[trigger] src[i] < orig.len()
                && orig[src[i]] == after[i] by {
                if i < p {
                    assert(src[i] == old_src[i]);
                    assert(after[i] == before[i]);
                } else if i > p {
                    assert(src[i] == old_src[i - 1]);
                    assert(after[i] == before[i - 1]);
                }
            }
            assert forall|j: int| m <= j < orig.len() implies after.contains(#[trigger] orig[j]) by {
                if j == m {
                    assert(after[p as int] == orig[m]);
                } else {
                    let i = before.index_of(orig[j]);
                    let i2 = if i < p { i } else { i + 1 };
                    assert(after[i2] == orig[j]);
                }
            }
            assert forall|i: int, j: int| 0 <= i < j < after.len() implies distance(
                target@,
                (#[trigger] after[i]).key,
            ) <= distance(target@, (#[trigger] after[j]).key) by {
                let i0 = if i < p { i } else { i - 1 };
                let j0 = if j < p { j } else { j - 1 };
                if i != p && j != p {
                    assert(after[i] == before[i0]);
                    assert(after[j] == before[j0]);
                } else if i == p {
                    assert(after[j] == before[j0]);
                    assert(after[j0 + 1] == before[j0]);
                    if j0 > p {
                        assert(distance(target@, before[p as int].key) <= distance(
                            target@,
                            before[j0].key,
                        ));
                    }
                } else {
                    assert(after[i] == before[i0]);
                }
            }
            assert forall|a: int, b: int| 0 <= a < after.len() && 0 <= b < after.len() && a
                != b implies keys(after)[a] != keys(after)[b] by {
                assert(orig[src[a]] == after[a]);
                assert(orig[src[b]] == after[b]);
                if src[a] == src[b] {
                    if a != p && b != p {
                        let a0 = if a < p { a } else { a - 1 };
                        let b0 = if b < p { b } else { b - 1 };
                        assert(keys(before)[a0] == keys(before)[b0]);
                    }
                } else {
                    assert(keys(orig)[src[a]] != keys(orig)[src[b]]);
                }
            }
        }
    }
    proof {
        assert forall|i: int| 0 <= i < sorted@.len() implies orig.contains(
            #[trigger] entry_views(sorted@)[i],
        ) by {
            assert(orig[src[i]] == entry_views(sorted@)[i]);
        }
    }
    sorted
}

/// Mapping commutes with putting an element in.
proof fn lemma_map_insert<A, B>(s: Seq<A>, f: spec_fn(A) -> B, i: int, a: A)
    requires
        0 <= i <= s.len(),
    ensures
        s.insert(i, a).map_values(f) == s.map_values(f).insert(i, f(a)),
{
    assert(s.insert(i, a).map_values(f) =~= s.map_values(f).insert(i, f(a)));
}

/// The routing table of a node.
#[derive(Debug)]
pub struct RoutingTable {
    local: RoutingKey,
    capacity: usize,
    buckets: Vec<Vec<RoutingEntry>>,
}

impl View for RoutingTable {
    type V = TableView;

    closed spec fn view(&self) -> TableView {
        TableView {
            local: self.local@,
            capacity: self.capacity as nat,
            buckets: self.buckets@.map_values(|b: Vec<RoutingEntry>| entry_views(b@)),
        }
    }
}

/// Whether every key of the table is the routing key of its entry's
/// identity.
pub open spec fn derived(table: TableView) -> bool {
    forall|b: int, i: int|
        0 <= b < table.buckets.len() && 0 <= i < table.buckets[b].len() ==> (
        #[trigger] table.buckets[b][i]).key == kad_key_bytes(table.buckets[b][i].identity)
}

/// Offering an entry under the routing key of its identity keeps a table
/// whose keys all are such.
pub proof fn lemma_inserted_derived(table: TableView, entry: EntryView)
    requires
        valid(table),
        derived(table),
        entry.key == kad_key_bytes(entry.identity),
    ensures
        derived(inserted(table, entry)),
{
    let next = inserted(table, entry);
    match bucket_of(table.local, entry.key) {
        Some(b) => {
            crate::keyspace::lemma_bucket_range(table.local, entry.key);
            let bucket = table.buckets[b];
            if bucket.len() > 0 {
                lemma_oldest_in_range(bucket);
            }
            assert forall|c: int, i: int|
                0 <= c < next.buckets.len() && 0 <= i < next.buckets[c].len() implies (
            #[trigger] next.buckets[c][i]).key == kad_key_bytes(next.buckets[c][i].identity) by {
                if c != b {
                    assert(next.buckets[c][i] == table.buckets[c][i]);
                } else {
                    let x = next.buckets[c][i];
                    match position(keys(bucket), entry.key) {
                        Some(p) => {
                            if i != p {
                                assert(x == table.buckets[b][i]);
                            }
                        },
                        None => {
                            if bucket.len() < table.capacity {
                                if i < bucket.len() {
                                    assert(x == table.buckets[b][i]);
                                }
                            } else if displaces(table.local, entry, bucket[oldest(bucket)]) {
                                let o = oldest(bucket);
                                if i < bucket.len() - 1 {
                                    let i0 = if i < o { i } else { i + 1 };
                                    assert(x == table.buckets[b][i0]);
                                }
                            } else {
                                assert(x == table.buckets[b][i]);
                            }
                        },
                    }
                }
            }
        },
        None => {},
    }
}

impl RoutingTable {
    /// The table's invariant.
    pub open spec fn wf(&self) -> bool {
        valid(self@)
    }

    /// The empty table around `local`, with buckets of the given capacity;
    /// `None` where the capacity is zero or above the largest.
    pub fn new(local: RoutingKey, capacity: usize) -> (r: Option<Self>)
        ensures
            r.is_some() == (1 <= capacity <= MAX_BUCKET_CAPACITY),
            r matches Some(table) ==> {
                &&& table.wf()
                &&& derived(table@)
                &&& table@ == empty_table(local@, capacity as nat)
                &&& total(table@.buckets) == 0
            },
    {
        if capacity < 1 || capacity > MAX_BUCKET_CAPACITY {
            return None;
        }
        let mut buckets: Vec<Vec<RoutingEntry>> = Vec::new();
        let mut b: usize = 0;
        while b < KEY_BITS
            invariant
                b <= KEY_BITS,
                buckets@.len() == b,
                forall|c: int| 0 <= c < b ==> (#[trigger] buckets@[c])@.len() == 0,
            decreases KEY_BITS - b,
        {
            buckets.push(Vec::new());
            b += 1;
        }
        let table = RoutingTable { local, capacity, buckets };
        proof {
            local.lemma_len();
            assert forall|c: int| 0 <= c < table@.buckets.len() implies valid_bucket(
                #[trigger] table@.buckets[c],
                table@.local,
                c,
                table@.capacity,
            ) by {
                assert(table@.buckets[c] =~= Seq::<EntryView>::empty());
                assert(keys(table@.buckets[c]) =~= Seq::<Seq<u8>>::empty());
            }
            lemma_total_bound(table@.buckets, 0);
            assert forall|c: int| 0 <= c < table@.buckets.len() implies #[trigger] table@.buckets[c]
                == Seq::<EntryView>::empty() by {
                assert(table@.buckets[c] =~= Seq::<EntryView>::empty());
            }
            assert(table@.buckets =~= empty_table(local@, capacity as nat).buckets);
        }
        Some(table)
    }

    /// The key around which the table is built.
    pub fn local(&self) -> (key: RoutingKey)
        ensures
            key@ == self@.local,
    {
        self.local
    }

    /// The capacity of each bucket.
    pub fn capacity(&self) -> (k: usize)
        ensures
            k == self@.capacity,
    {
        self.capacity
    }

    /// The number of entries in bucket `index`; zero where the table has no
    /// such bucket.
    pub fn bucket_len(&self, index: usize) -> (n: usize)
        requires
            self.wf(),
        ensures
            index < KEY_BITS ==> n == self@.buckets[index as int].len(),
            index >= KEY_BITS ==> n == 0,
            n <= self@.capacity,
    {
        if index >= KEY_BITS {
            return 0;
        }
        assert(valid_bucket(self@.buckets[index as int], self@.local, index as int, self@.capacity));
        self.buckets[index].len()
    }

    /// The number of entries in the table.
    pub fn len(&self) -> (n: usize)
        requires
            self.wf(),
        ensures
            n == total(self@.buckets),
    {
        let mut n: usize = 0;
        let mut b: usize = 0;
        while b < self.buckets.len()
            invariant
                self.wf(),
                b <= self.buckets@.len(),
                n == total(self@.buckets.take(b as int)),
                n <= b * self@.capacity,
            decreases self.buckets@.len() - b,
        {
            proof {
                assert(self@.buckets.take(b + 1).drop_last() =~= self@.buckets.take(b as int));
                assert(valid_bucket(self@.buckets[b as int], self@.local, b as int, self@.capacity));
                assert((b + 1) * self@.capacity == b * self@.capacity + self@.capacity)
                    by (nonlinear_arith);
                assert((b + 1) * self@.capacity <= 256 * 65536) by (nonlinear_arith)
                    requires
                        b + 1 <= 256,
                        self@.capacity <= 65536,
                ;
            }
            n += self.buckets[b].len();
            b += 1;
        }
        proof {
            assert(self@.buckets.take(self@.buckets.len() as int) =~= self@.buckets);
        }
        n
    }

    /// The entry under `key`, if the table holds one.
    pub fn get(&self, key: &RoutingKey) -> (r: Option<&RoutingEntry>)
        requires
            self.wf(),
        ensures
            match r {
                Some(entry) => entry@.key == key@ && holds(self@, entry@),
                None => forall|e: EntryView| holds(self@, e) ==> e.key != key@,
            },
    {
        match self.local.bucket_index(key) {
            Some(b) => {
                assert(valid_bucket(self@.buckets[b as int], self@.local, b as int, self@.capacity));
                match find_key(&self.buckets[b], key) {
                    Some(i) => {
                        assert(self@.buckets[b as int][i as int] == self.buckets[b as int][i as int]@);
                        Some(&self.buckets[b][i])
                    },
                    None => {
                        proof {
                            assert forall|e: EntryView| holds(self@, e) implies e.key != key@ by {
                                let (c, i) = choose|c: int, i: int|
                                    0 <= c < self@.buckets.len() && 0 <= i < self@.buckets[c].len()
                                        && self@.buckets[c][i] == e;
                                assert(valid_bucket(self@.buckets[c], self@.local, c, self@.capacity));
                                if e.key == key@ {
                                    assert(keys(self@.buckets[c])[i] == key@);
                                }
                            }
                        }
                        None
                    },
                }
            },
            None => {
                proof {
                    assert forall|e: EntryView| holds(self@, e) implies e.key != key@ by {
                        let (c, i) = choose|c: int, i: int|
                            0 <= c < self@.buckets.len() && 0 <= i < self@.buckets[c].len()
                                && self@.buckets[c][i] == e;
                        assert(valid_bucket(self@.buckets[c], self@.local, c, self@.capacity));
                    }
                }
                None
            },
        }
    }

    /// Offers an entry to the table: it refreshes the entry of its key, joins
    /// a bucket with room, or takes the place of a full bucket's least
    /// recently seen entry where it was seen later or is closer to the node.
    pub fn insert(&mut self, entry: RoutingEntry) -> (outcome: AddOutcome)
        requires
            old(self).wf(),
        ensures
            final(self).wf(),
            final(self)@ == inserted(old(self)@, entry@),
            outcome@ == verdict(old(self)@, entry@),
            derived(old(self)@) && entry@.key == kad_key_bytes(entry@.identity) ==> derived(
                final(self)@,
            ),
    {
        let ghost before = self@;
        let ghost news = entry@;
        proof {
            lemma_inserted_valid(before, news);
            if derived(before) && news.key == kad_key_bytes(news.identity) {
                lemma_inserted_derived(before, news);
            }
        }
        match self.local.bucket_index(&entry.key) {
            None => AddOutcome::Local,
            Some(b) => {
                let ghost bucket = before.buckets[b as int];
                assert(valid_bucket(bucket, before.local, b as int, before.capacity));
                match find_key(&self.buckets[b], &entry.key) {
                    Some(i) => {
                        let known = self.buckets[b][i].last_seen;
                        let seen = if entry.last_seen >= known {
                            entry.last_seen
                        } else {
                            known
                        };
                        let fresh = RoutingEntry {
                            key: entry.key,
                            identity: entry.identity,
                            address: entry.address,
                            last_seen: seen,
                        };
                        assert(fresh@ == refreshed(bucket[i as int], news));
                        self.buckets[b][i] = fresh;
                        proof {
                            assert(entry_views(self.buckets@[b as int]@) =~= bucket.update(
                                i as int,
                                fresh@,
                            ));
                            assert(self@.buckets =~= before.buckets.update(
                                b as int,
                                bucket.update(i as int, fresh@),
                            ));
                        }
                        AddOutcome::Refreshed
                    },
                    None => {
                        if self.buckets[b].len() < self.capacity {
                            self.buckets[b].push(entry);
                            proof {
                                assert(entry_views(self.buckets@[b as int]@) =~= bucket.push(news));
                                assert(self@.buckets =~= before.buckets.update(
                                    b as int,
                                    bucket.push(news),
                                ));
                            }
                            AddOutcome::Added
                        } else {
                            let o = oldest_index(&self.buckets[b]);
                            let later = entry.last_seen > self.buckets[b][o].last_seen;
                            let nearer = self.local.closer(&entry.key, &self.buckets[b][o].key);
                            assert(bucket[o as int] == self.buckets@[b as int]@[o as int]@);
                            if later || nearer {
                                let gone = self.buckets[b].remove(o);
                                self.buckets[b].push(entry);
                                proof {
                                    assert(entry_views(self.buckets@[b as int]@) =~= bucket.remove(
                                        o as int,
                                    ).push(news));
                                    assert(self@.buckets =~= before.buckets.update(
                                        b as int,
                                        bucket.remove(o as int).push(news),
                                    ));
                                }
                                AddOutcome::Replaced(gone)
                            } else {
                                proof {
                                    assert(before.buckets.update(b as int, bucket) =~= before.buckets);
                                }
                                AddOutcome::Full
                            }
                        }
                    },
                }
            },
        }
    }

    /// Inserts or refreshes the entry of a peer, under the routing key of its
    /// identity, as seen at `now`.
    pub fn add_address(
        &mut self,
        identity: PeerIdentity,
        address: PeerAddress,
        now: u64,
    ) -> (outcome: AddOutcome)
        requires
            old(self).wf(),
        ensures
            final(self).wf(),
            final(self)@ == inserted(
                old(self)@,
                EntryView {
                    key: kad_key_bytes(identity@),
                    identity: identity@,
                    address: address@,
                    last_seen: now,
                },
            ),
            outcome@ == verdict(
                old(self)@,
                EntryView {
                    key: kad_key_bytes(identity@),
                    identity: identity@,
                    address: address@,
                    last_seen: now,
                },
            ),
            derived(old(self)@) ==> derived(final(self)@),
    {
        let entry = RoutingEntry::new(identity, address, now);
        self.insert(entry)
    }

    /// Takes the entry under `key` out of the table. Returns the entry, or
    /// `None` where the table held none.
    pub fn remove(&mut self, key: &RoutingKey) -> (gone: Option<RoutingEntry>)
        requires
            old(self).wf(),
        ensures
            final(self).wf(),
            final(self)@ == without(old(self)@, key@),
            gone.is_some() == (final(self)@ != old(self)@),
            gone matches Some(entry) ==> entry@.key == key@ && holds(old(self)@, entry@),
            derived(old(self)@) ==> derived(final(self)@),
    {
        let ghost before = self@;
        proof {
            lemma_without_valid(before, key@);
        }
        match self.local.bucket_index(key) {
            None => None,
            Some(b) => {
                let ghost bucket = before.buckets[b as int];
                assert(valid_bucket(bucket, before.local, b as int, before.capacity));
                match find_key(&self.buckets[b], key) {
                    Some(i) => {
                        let gone = self.buckets[b].remove(i);
                        proof {
                            assert(entry_views(self.buckets@[b as int]@) =~= bucket.remove(i as int));
                            assert(self@.buckets =~= before.buckets.update(
                                b as int,
                                bucket.remove(i as int),
                            ));
                            assert(before.buckets[b as int][i as int] == gone@);
                            assert(self@.buckets[b as int].len() != before.buckets[b as int].len());
                            if derived(before) {
                                assert forall|c: int, j: int|
                                    0 <= c < self@.buckets.len() && 0 <= j < self@.buckets[c].len() implies (
                                #[trigger] self@.buckets[c][j]).key == kad_key_bytes(
                                    self@.buckets[c][j].identity,
                                ) by {
                                    let j0 = if c == b && j >= i { j + 1 } else { j };
                                    assert(self@.buckets[c][j] == before.buckets[c][j0]);
                                }
                            }
                        }
                        Some(gone)
                    },
                    None => None,
                }
            },
        }
    }

    /// Copies of all entries, bucket after bucket.
    pub fn entries(&self) -> (all: Vec<RoutingEntry>)
        ensures
            entry_views(all@) == flat(self@.buckets),
    {
        let mut all: Vec<RoutingEntry> = Vec::new();
        let mut b: usize = 0;
        proof {
            assert(self@.buckets.take(0) =~= Seq::<Seq<EntryView>>::empty());
            assert(entry_views(all@) =~= flat(self@.buckets.take(0)));
        }
        while b < self.buckets.len()
            invariant
                b <= self.buckets@.len(),
                entry_views(all@) == flat(self@.buckets.take(b as int)),
            decreases self.buckets@.len() - b,
        {
            proof {
                assert(self@.buckets.take(b + 1).drop_last() =~= self@.buckets.take(b as int));
                assert(self@.buckets.take(b + 1).last() == entry_views(self.buckets@[b as int]@));
            }
            append_copies(&mut all, &self.buckets[b]);
            b += 1;
        }
        proof {
            assert(self@.buckets.take(self@.buckets.len() as int) =~= self@.buckets);
        }
        all
    }

    /// The `n` entries nearest to `target`, nearest first; all entries where
    /// the table holds fewer.
    pub fn closest(&self, target: &RoutingKey, n: usize) -> (near: Vec<RoutingEntry>)
        requires
            self.wf(),
        ensures
            near@.len() == if n <= total(self@.buckets) {
                n as nat
            } else {
                total(self@.buckets)
            },
            nearest_first(target@, entry_views(near@)),
            keys(entry_views(near@)).no_duplicates(),
            derived(self@) ==> identities(entry_views(near@)).no_duplicates(),
            forall|i: int| 0 <= i < near@.len() ==> holds(self@, #[trigger] entry_views(near@)[i]),
            forall|e: EntryView, i: int|
                #![trigger holds(self@, e), entry_views(near@)[i]]
                holds(self@, e) && !entry_views(near@).contains(e) && 0 <= i < near@.len() ==> distance(
                    target@,
                    entry_views(near@)[i].key,
                ) <= distance(target@, e.key),
    {
        let all = self.entries();
        let ghost pool = entry_views(all@);
        proof {
            lemma_flat_keys(self@.buckets, self@.local, self@.capacity);
            lemma_total_flat(self@.buckets);
        }
        let mut near = sort_nearest(target, all);
        let ghost sorted = entry_views(near@);
        near.truncate(n);
        proof {
            let cut = entry_views(near@);
            assert(cut =~= sorted.take(near@.len() as int));
            assert forall|i: int| 0 <= i < cut.len() implies holds(self@, #[trigger] cut[i]) by {
                assert(cut[i] == sorted[i]);
                assert(pool.contains(sorted[i]));
                let p = pool.index_of(sorted[i]);
                let at = lemma_flat_source(self@.buckets, p);
                assert(self@.buckets[at.0][at.1] == cut[i]);
            }
            assert forall|a: int, b: int| 0 <= a < cut.len() && 0 <= b < cut.len() && a
                != b implies keys(cut)[a] != keys(cut)[b] by {
                assert(keys(sorted)[a] != keys(sorted)[b]);
            }
            assert forall|e: EntryView, i: int|
                #![trigger holds(self@, e), cut[i]]
                holds(self@, e) && !cut.contains(e) && 0 <= i < cut.len() implies distance(
                target@,
                cut[i].key,
            ) <= distance(target@, e.key) by {
                let (c, k) = choose|c: int, k: int|
                    0 <= c < self@.buckets.len() && 0 <= k < self@.buckets[c].len()
                        && self@.buckets[c][k] == e;
                lemma_flat_holds(self@.buckets, c, k);
                let p = pool.index_of(e);
                assert(sorted.contains(pool[p]));
                let j = sorted.index_of(e);
                if j < cut.len() {
                    assert(cut[j] == e);
                }
                assert(cut[i] == sorted[i]);
            }
            if derived(self@) {
                assert forall|a: int, b: int| 0 <= a < cut.len() && 0 <= b < cut.len() && a
                    != b implies identities(cut)[a] != identities(cut)[b] by {
                    assert(holds(self@, cut[a]));
                    assert(holds(self@, cut[b]));
                    let (c1, k1) = choose|c: int, k: int|
                        0 <= c < self@.buckets.len() && 0 <= k < self@.buckets[c].len()
                            && self@.buckets[c][k] == cut[a];
                    let (c2, k2) = choose|c: int, k: int|
                        0 <= c < self@.buckets.len() && 0 <= k < self@.buckets[c].len()
                            && self@.buckets[c][k] == cut[b];
                    assert(self@.buckets[c1][k1].key == kad_key_bytes(self@.buckets[c1][k1].identity));
                    assert(self@.buckets[c2][k2].key == kad_key_bytes(self@.buckets[c2][k2].identity));
                    assert(keys(cut)[a] != keys(cut)[b]);
                }
            }
        }
        near
    }

    /// The `n` peers nearest to `target` in the routing keyspace, nearest
    /// first.
    pub fn closest_peers(&self, target: &PeerIdentity, n: usize) -> (near: Vec<RoutingEntry>)
        requires
            self.wf(),
        ensures
            near@.len() == if n <= total(self@.buckets) {
                n as nat
            } else {
                total(self@.buckets)
            },
            nearest_first(kad_key_bytes(target@), entry_views(near@)),
            keys(entry_views(near@)).no_duplicates(),
            derived(self@) ==> identities(entry_views(near@)).no_duplicates(),
            forall|i: int| 0 <= i < near@.len() ==> holds(self@, #[trigger] entry_views(near@)[i]),
            forall|e: EntryView, i: int|
                #![trigger holds(self@, e), entry_views(near@)[i]]
                holds(self@, e) && !entry_views(near@).contains(e) && 0 <= i < near@.len() ==> distance(
                    kad_key_bytes(target@),
                    entry_views(near@)[i].key,
                ) <= distance(kad_key_bytes(target@), e.key),
    {
        let key = RoutingKey::of(target);
        self.closest(&key, n)
    }
}

/// The table after a run of entries was offered to it, one after the other.
pub open spec fn inserted_all(table: TableView, entries: Seq<EntryView>) -> TableView
    decreases entries.len(),
{
    if entries.len() == 0 {
        table
    } else {
        inserted(inserted_all(table, entries.drop_last()), entries.last())
    }
}

/// Whatever run of entries is offered to a valid table, no bucket ever holds
/// more than the table's capacity.
pub proof fn law_bucket_bound(table: TableView, entries: Seq<EntryView>)
    requires
        valid(table),
    ensures
        valid(inserted_all(table, entries)),
        inserted_all(table, entries).capacity == table.capacity,
        forall|b: int|
            0 <= b < KEY_BITS ==> (#[trigger] inserted_all(table, entries).buckets[b]).len()
                <= table.capacity,
    decreases entries.len(),
{
    if entries.len() > 0 {
        law_bucket_bound(table, entries.drop_last());
        lemma_inserted_valid(inserted_all(table, entries.drop_last()), entries.last());
    }
    let after = inserted_all(table, entries);
    assert forall|b: int| 0 <= b < KEY_BITS implies (#[trigger] after.buckets[b]).len()
        <= table.capacity by {
        assert(valid_bucket(after.buckets[b], after.local, b, after.capacity));
    }
}

} // verus!
