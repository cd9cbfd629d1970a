//! The routing keyspace and its XOR metric.
//!
//! A routing key is the 32-byte hash that libp2p's Kademlia gives a peer
//! identity. The distance between two keys is the bitwise exclusive or of
//! their bytes, read as one big-endian number; the bucket of a key, seen from
//! another, is the position of that number's highest set bit.

use crate::identity::PeerIdentity;
use libp2p::kad::KBucketKey;
use vstd::arithmetic::power2::{lemma2_to64, lemma_pow2_adds, lemma_pow2_unfold, pow2};
use vstd::prelude::*;

verus! {

/// The number of bytes in a routing key.
pub const KEY_LEN: usize = 32;

/// The number of bits in a routing key, and so of buckets in a routing table.
pub const KEY_BITS: usize = 256;

/// The 32 bytes that `KBucketKey::new` hashes `preimage` to.
pub uninterp spec fn kad_key_bytes(preimage: Seq<u8>) -> Seq<u8>;

/// Calls libp2p-kad's `KBucketKey::new` and copies out its `hashed_bytes`.
/// Trusted: the 32 bytes are a function of the preimage alone, named
/// `kad_key_bytes`.
#[verifier::external_body]
fn kad_hash(preimage: &[u8]) -> (r: [u8; 32])
    ensures
        r@ == kad_key_bytes(preimage@),
{
    let key = KBucketKey::new(preimage);
    let mut out = [0u8; 32];
    out.copy_from_slice(key.hashed_bytes());
    out
}

/// The number that a byte string spells, most significant byte first.
pub open spec fn be_value(s: Seq<u8>) -> nat
    decreases s.len(),
{
    if s.len() == 0 {
        0
    } else {
        be_value(s.drop_last()) * 256 + s.last() as nat
    }
}

/// The bytewise exclusive or of two byte strings of one length.
pub open spec fn xor_bytes(a: Seq<u8>, b: Seq<u8>) -> Seq<u8> {
    Seq::new(a.len(), |i: int| a[i] ^ b[i])
}

/// The XOR distance between two keys.
pub open spec fn distance(a: Seq<u8>, b: Seq<u8>) -> nat {
    be_value(xor_bytes(a, b))
}

/// The position of the highest set bit of `d`, counted from zero at the
/// least significant bit; zero for `d == 0`.
pub open spec fn log2_floor(d: nat) -> nat
    decreases d,
{
    if d <= 1 {
        0
    } else {
        1 + log2_floor(d / 2)
    }
}

/// The bucket in which a table around `local` keeps `key`: none for `local`
/// itself, else the position of the highest bit in which the two differ.
pub open spec fn bucket_of(local: Seq<u8>, key: Seq<u8>) -> Option<int> {
    let d = distance(local, key);
    if d == 0 {
        None
    } else {
        Some(log2_floor(d) as int)
    }
}

/// The weight of the byte that stands `m` bytes before the last.
pub open spec fn byte_weight(m: nat) -> nat {
    pow2(8 * m)
}

/// Each byte weighs 256 times the next.
proof fn lemma_byte_weight_step(m: nat)
    ensures
        byte_weight(m + 1) == 256 * byte_weight(m),
        byte_weight(m) > 0,
        byte_weight(0) == 1,
{
    lemma2_to64();
    lemma_pow2_adds(8, 8 * m);
    assert(8 * (m + 1) == 8 + 8 * m);
    vstd::arithmetic::power2::lemma_pow2_pos(8 * m);
}

/// Of two byte strings of one length, the one with the smaller byte at the
/// first position where they differ spells the smaller number.
pub proof fn lemma_be_value_order(x: Seq<u8>, y: Seq<u8>, i: int)
    requires
        x.len() == y.len(),
        0 <= i < x.len(),
        forall|j: int| 0 <= j < i ==> x[j] == y[j],
        x[i] < y[i],
    ensures
        be_value(x) < be_value(y),
    decreases x.len(),
{
    let xs = x.drop_last();
    let ys = y.drop_last();
    if i == x.len() - 1 {
        assert(xs =~= ys);
    } else {
        lemma_be_value_order(xs, ys, i);
    }
}

/// Byte strings that agree everywhere spell the same number.
proof fn lemma_be_value_zero(x: Seq<u8>)
    requires
        forall|j: int| 0 <= j < x.len() ==> x[j] == 0,
    ensures
        be_value(x) == 0,
    decreases x.len(),
{
    if x.len() > 0 {
        lemma_be_value_zero(x.drop_last());
    }
}

/// A byte string whose first non-zero byte stands at `i` spells a number
/// between that byte's weight times the byte and times the byte's successor.
proof fn lemma_be_value_leading(x: Seq<u8>, i: int)
    requires
        0 <= i < x.len(),
        forall|j: int| 0 <= j < i ==> x[j] == 0,
    ensures
        x[i] as nat * byte_weight((x.len() - 1 - i) as nat) <= be_value(x),
        be_value(x) < (x[i] as nat + 1) * byte_weight((x.len() - 1 - i) as nat),
    decreases x.len(),
{
    let xs = x.drop_last();
    let m = (x.len() - 1 - i) as nat;
    if i == x.len() - 1 {
        lemma_be_value_zero(xs);
        lemma_byte_weight_step(0);
    } else {
        lemma_be_value_leading(xs, i);
        let w = byte_weight((m - 1) as nat);
        lemma_byte_weight_step((m - 1) as nat);
        let v = x[i] as nat;
        let b = be_value(xs);
        assert(byte_weight(m) == 256 * w);
        assert(v * w <= b);
        assert(b < (v + 1) * w);
        assert(v * (256 * w) <= b * 256) by (nonlinear_arith)
            requires
                v * w <= b,
        ;
        assert(b * 256 + 255 < (v + 1) * (256 * w)) by (nonlinear_arith)
            requires
                b < (v + 1) * w,
        ;
    }
}

/// A number between two neighbouring powers of two has the lower one's
/// exponent as the position of its highest set bit.
proof fn lemma_log2_floor_between(d: nat, k: nat)
    requires
        pow2(k) <= d < pow2(k + 1),
    ensures
        log2_floor(d) == k,
    decreases k,
{
    lemma2_to64();
    if k == 0 {
    } else {
        lemma_pow2_unfold(k);
        lemma_pow2_unfold(k + 1);
        vstd::arithmetic::power2::lemma_pow2_pos((k - 1) as nat);
        assert(d >= 2);
        lemma_log2_floor_between(d / 2, (k - 1) as nat);
    }
}

/// The position of the highest set bit of a non-zero byte.
fn high_bit(v: u8) -> (bit: usize)
    requires
        v != 0,
    ensures
        bit < 8,
        pow2(bit as nat) <= v < pow2((bit + 1) as nat),
{
    proof {
        lemma2_to64();
    }
    if v >= 128 {
        7
    } else if v >= 64 {
        6
    } else if v >= 32 {
        5
    } else if v >= 16 {
        4
    } else if v >= 8 {
        3
    } else if v >= 4 {
        2
    } else if v >= 2 {
        1
    } else {
        0
    }
}

/// A key of the routing keyspace.
#[derive(Clone, Copy, Debug, PartialEq, Eq)]
pub struct RoutingKey {
    bytes: [u8; 32],
}

impl View for RoutingKey {
    type V = Seq<u8>;

    closed spec fn view(&self) -> Seq<u8> {
        self.bytes@
    }
}

impl RoutingKey {
    /// Every key has 32 bytes.
    pub proof fn lemma_len(&self)
        ensures
            self@.len() == KEY_LEN,
    {
    }

    /// The key with the given bytes.
    pub fn from_bytes(bytes: [u8; 32]) -> (key: Self)
        ensures
            key@ == bytes@,
    {
        RoutingKey { bytes }
    }

    /// The key of a peer identity: the hash that libp2p's Kademlia gives its
    /// bytes.
    pub fn of(identity: &PeerIdentity) -> (key: Self)
        ensures
            key@ == kad_key_bytes(identity@),
    {
        RoutingKey { bytes: kad_hash(identity.as_bytes()) }
    }

    /// The key's bytes.
    pub fn to_bytes(&self) -> (bytes: [u8; 32])
        ensures
            bytes@ == self@,
    {
        self.bytes
    }

    /// Whether `other` is the same key.
    pub fn same(&self, other: &RoutingKey) -> (r: bool)
        ensures
            r == (self@ == other@),
    {
        let mut i: usize = 0;
        while i < 32
            invariant
                i <= 32,
                forall|j: int| 0 <= j < i ==> self@[j] == other@[j],
            decreases 32 - i,
        {
            if self.bytes[i] != other.bytes[i] {
                return false;
            }
            i += 1;
        }
        assert(self@ =~= other@);
        true
    }

    /// Whether `a` is strictly closer to this key than `b` is.
    pub fn closer(&self, a: &RoutingKey, b: &RoutingKey) -> (r: bool)
        ensures
            r == (distance(self@, a@) < distance(self@, b@)),
    {
        let ghost xa = xor_bytes(self@, a@);
        let ghost xb = xor_bytes(self@, b@);
        let mut i: usize = 0;
        while i < 32
            invariant
                i <= 32,
                xa == xor_bytes(self@, a@),
                xb == xor_bytes(self@, b@),
                xa.len() == 32,
                xb.len() == 32,
                forall|j: int| 0 <= j < i ==> xa[j] == xb[j],
            decreases 32 - i,
        {
            let da = self.bytes[i] ^ a.bytes[i];
            let db = self.bytes[i] ^ b.bytes[i];
            assert(da == xa[i as int]);
            assert(db == xb[i as int]);
            if da != db {
                proof {
                    if da < db {
                        lemma_be_value_order(xa, xb, i as int);
                    } else {
                        lemma_be_value_order(xb, xa, i as int);
                    }
                }
                return da < db;
            }
            i += 1;
        }
        assert(xa =~= xb);
        false
    }

    /// The bucket in which a table around this key keeps `other`.
    pub fn bucket_index(&self, other: &RoutingKey) -> (r: Option<usize>)
        ensures
            r.is_none() == (self@ == other@),
            match r {
                Some(index) => index < KEY_BITS && bucket_of(self@, other@) == Some(index as int),
                None => bucket_of(self@, other@).is_none(),
            },
    {
        let ghost x = xor_bytes(self@, other@);
        let mut i: usize = 0;
        while i < 32
            invariant
                i <= 32,
                x == xor_bytes(self@, other@),
                x.len() == 32,
                forall|j: int| 0 <= j < i ==> x[j] == 0,
                forall|j: int| 0 <= j < i ==> self@[j] == other@[j],
            decreases 32 - i,
        {
            let p = self.bytes[i];
            let q = other.bytes[i];
            let v = p ^ q;
            assert(v == x[i as int]);
            assert((p ^ q) == 0 <==> p == q) by (bit_vector);
            if v != 0 {
                let bit = high_bit(v);
                let ghost m = (31 - i) as nat;
                proof {
                    lemma_be_value_leading(x, i as int);
                    let w = byte_weight(m);
                    let d = be_value(x);
                    lemma_pow2_adds(bit as nat, 8 * m);
                    lemma_pow2_adds((bit + 1) as nat, 8 * m);
                    vstd::arithmetic::power2::lemma_pow2_pos(8 * m);
                    assert(pow2(bit as nat) * w <= (v as nat) * w) by (nonlinear_arith)
                        requires
                            pow2(bit as nat) <= v as nat,
                            w > 0,
                    ;
                    assert((v as nat + 1) * w <= pow2((bit + 1) as nat) * w) by (nonlinear_arith)
                        requires
                            v as nat + 1 <= pow2((bit + 1) as nat),
                            w > 0,
                    ;
                    assert(pow2((bit + 8 * m) as nat) <= d);
                    assert(d < pow2((bit + 8 * m + 1) as nat));
                    lemma_log2_floor_between(d, (bit + 8 * m) as nat);
                    vstd::arithmetic::power2::lemma_pow2_pos((bit + 8 * m) as nat);
                }
                return Some((31 - i) * 8 + bit);
            }
            i += 1;
        }
        proof {
            lemma_be_value_zero(x);
            assert(self@ =~= other@);
        }
        None
    }
}

/// A bucket position is below the number of a key's bits, for keys of the
/// keyspace.
pub proof fn lemma_bucket_range(local: Seq<u8>, key: Seq<u8>)
    requires
        local.len() == KEY_LEN,
    ensures
        bucket_of(local, key) matches Some(b) ==> 0 <= b < KEY_BITS,
{
    let x = xor_bytes(local, key);
    let d = be_value(x);
    if d != 0 {
        lemma_be_value_below(x);
        lemma_log2_floor_below(d, 256);
    }
}

/// A byte string spells a number below the weight of the byte before its
/// first.
proof fn lemma_be_value_below(x: Seq<u8>)
    ensures
        be_value(x) < byte_weight(x.len()),
    decreases x.len(),
{
    if x.len() > 0 {
        lemma_be_value_below(x.drop_last());
        lemma_byte_weight_step((x.len() - 1) as nat);
    } else {
        lemma_byte_weight_step(0);
    }
}

/// A non-zero number below a power of two has its highest set bit below the
/// exponent.
proof fn lemma_log2_floor_below(d: nat, k: nat)
    requires
        0 < d < pow2(k),
    ensures
        log2_floor(d) < k,
    decreases k,
{
    lemma2_to64();
    if k == 0 {
    } else if d > 1 {
        lemma_pow2_unfold(k);
        lemma_log2_floor_below(d / 2, (k - 1) as nat);
    }
}

/// A key is at distance zero from itself.
pub proof fn law_distance_to_self(a: Seq<u8>)
    ensures
        distance(a, a) == 0,
{
    let x = xor_bytes(a, a);
    assert forall|j: int| 0 <= j < x.len() implies x[j] == 0 by {
        let p = a[j];
        assert((p ^ p) == 0) by (bit_vector);
    }
    lemma_be_value_zero(x);
}

/// The distance between two keys is the same from either side.
pub proof fn law_distance_symmetric(a: Seq<u8>, b: Seq<u8>)
    requires
        a.len() == b.len(),
    ensures
        distance(a, b) == distance(b, a),
{
    let x = xor_bytes(a, b);
    let y = xor_bytes(b, a);
    assert forall|j: int| 0 <= j < x.len() implies x[j] == y[j] by {
        let p = a[j];
        let q = b[j];
        assert((p ^ q) == (q ^ p)) by (bit_vector);
    }
    assert(x =~= y);
}

} // verus!
