//! Bloom filter used by tables for fast negative point lookups.
//!
//! The 64-bit xxh3 hash of a key is split into two 32-bit halves `h1` and
//! `h2`; the `i`-th hash function is `h1 + i * h2`.

use super::checksum::xxh3_hash64;
use crate::bytes::append_bytes;
use crate::bytes::copy_bytes;
use crate::bytes::from_le32;
use crate::bytes::get_le32;
use crate::bytes::le32;
use crate::bytes::lemma_le_round_trip;
use crate::bytes::put_le32;
use vstd::prelude::*;
use vstd::slice::slice_subrange;
use xxhash_rust::xxh3::xxh3_64;

verus! {

/// Bit `p` of a packed bit array.
pub open spec fn bit_at(bits: Seq<u8>, p: int) -> bool {
    bits[p / 8] & (1u8 << ((p % 8) as u8)) != 0
}

/// The `i`-th hash of a key whose xxh3 hash is `h`.
pub open spec fn nth_hash(h: u64, i: u32) -> u32 {
    (h as u32).wrapping_add(((h >> 32) as u32).wrapping_mul(i))
}

/// The bit that the `i`-th hash of `key` picks among `num_bits`.
pub open spec fn probe(key: Seq<u8>, i: u32, num_bits: nat) -> int {
    nth_hash(xxh3_hash64(key), i) as int % num_bits as int
}

/// The filter of these bits passes `key`: all the bits that its hashes pick
/// are set. A filter without bits passes every key.
pub open spec fn passes(bits: Seq<u8>, num_hashes: u32, key: Seq<u8>) -> bool {
    bits.len() == 0 || forall|i: u32|
        i < num_hashes ==> bit_at(bits, #[trigger] probe(key, i, 8 * bits.len()))
}

/// On-disk Bloom filter: a packed bit array and the number of hash functions
/// to apply to a key.
pub struct BloomFilter {
    bits: Vec<u8>,
    num_hashes: u32,
}

impl BloomFilter {
    /// The bit array.
    pub closed spec fn bits(&self) -> Seq<u8> {
        self.bits@
    }

    /// The number of hash functions.
    pub closed spec fn hashes(&self) -> u32 {
        self.num_hashes
    }

    /// A filter of the given bits.
    pub fn new(bits: Vec<u8>, num_hashes: u32) -> (r: Self)
        ensures
            r.bits() == bits@,
            r.hashes() == num_hashes,
    {
        BloomFilter { bits, num_hashes }
    }

    /// `true` if the key *might* be in the set; `false` means definitely not.
    pub fn may_contain(&self, key: &[u8]) -> (r: bool)
        requires
            8 * self.bits().len() <= usize::MAX,
        ensures
            r == passes(self.bits(), self.hashes(), key@),
    {
        if self.bits.is_empty() {
            return true;
        }
        let num_bits: usize = self.bits.len() * 8;
        let h: u64 = xxh3_64(key);
        let h1: u32 = h as u32;
        let h2: u32 = (h >> 32) as u32;
        let mut i: u32 = 0;
        while i < self.num_hashes
            invariant
                num_bits == 8 * self.bits@.len(),
                num_bits > 0,
                h == xxh3_hash64(key@),
                h1 == h as u32,
                h2 == (h >> 32) as u32,
                i <= self.num_hashes,
                forall|j: u32|
                    j < i ==> bit_at(self.bits@, #[trigger] probe(key@, j, num_bits as nat)),
            decreases self.num_hashes - i,
        {
            let bit_pos: usize = h1.wrapping_add(h2.wrapping_mul(i)) as usize % num_bits;
            assert(bit_pos == probe(key@, i, num_bits as nat));
            if self.bits[bit_pos / 8] & (1u8 << ((bit_pos % 8) as u8)) == 0 {
                return false;
            }
            i += 1;
        }
        true
    }
}

/// Bit `p` of `bits` is one that a hash of one of the keys picks.
pub open spec fn picked(keys: Seq<Vec<u8>>, num_hashes: u32, num_bits: nat, p: int) -> bool {
    exists|j: int, i: u32|
        0 <= j < keys.len() && i < num_hashes && p == #[trigger] probe(keys[j]@, i, num_bits)
}

/// The number of hash functions for a filter of `bits_per_key`: 0.69 (close
/// to ln 2) times that, rounded down, at least 1 and at most 30.
pub open spec fn hash_count(bits_per_key: nat) -> nat {
    if bits_per_key * 69 / 100 < 1 {
        1
    } else if bits_per_key * 69 / 100 > 30 {
        30
    } else {
        bits_per_key * 69 / 100
    }
}

/// The bytes of a filter over `keys` keys: at least eight.
pub open spec fn filter_bytes(keys: nat, bits_per_key: nat) -> nat {
    if keys * bits_per_key < 64 {
        8
    } else {
        ((keys * bits_per_key + 7) / 8) as nat
    }
}

/// Accumulates keys and makes a [`BloomFilter`] sized by `bits_per_key`.
pub struct BloomFilterBuilder {
    keys: Vec<Vec<u8>>,
    bits_per_key: usize,
}

impl BloomFilterBuilder {
    /// The keys added.
    pub closed spec fn keys(&self) -> Seq<Vec<u8>> {
        self.keys@
    }

    /// The bits per key.
    pub closed spec fn bits_per_key(&self) -> nat {
        self.bits_per_key as nat
    }

    /// A builder without keys.
    pub fn new(bits_per_key: usize) -> (r: Self)
        ensures
            r.keys() == Seq::<Vec<u8>>::empty(),
            r.bits_per_key() == bits_per_key,
    {
        BloomFilterBuilder { keys: Vec::new(), bits_per_key }
    }

    /// Add a key.
    pub fn add_key(&mut self, key: &[u8])
        ensures
            final(self).bits_per_key() == old(self).bits_per_key(),
            final(self).keys().len() == old(self).keys().len() + 1,
            final(self).keys().drop_last() == old(self).keys(),
            final(self).keys().last()@ == key@,
    {
        self.keys.push(copy_bytes(key));
        assert(self.keys@.drop_last() =~= old(self).keys@);
    }

    /// The filter of the keys: exactly the bits that their hashes pick are
    /// set. Without keys it has no bits, and passes everything.
    pub fn build(self) -> (r: BloomFilter)
        requires
            self.keys().len() * self.bits_per_key() + 71 <= usize::MAX,
        ensures
            self.keys().len() == 0 ==> r.bits().len() == 0 && r.hashes() == 0,
            self.keys().len() > 0 ==> {
                &&& r.bits().len() == filter_bytes(self.keys().len(), self.bits_per_key())
                &&& r.hashes() == hash_count(self.bits_per_key())
                &&& 8 * r.bits().len() <= usize::MAX
                &&& forall|p: int|
                    0 <= p < 8 * r.bits().len() ==> (#[trigger] bit_at(r.bits(), p) <==> picked(
                        self.keys(),
                        r.hashes(),
                        8 * r.bits().len(),
                        p,
                    ))
            },
    {
        if self.keys.is_empty() {
            return BloomFilter::new(Vec::new(), 0);
        }
        let wanted: usize = self.keys.len() * self.bits_per_key;
        let num_bits: usize = if wanted < 64 {
            64
        } else {
            wanted
        };
        let num_bytes: usize = (num_bits + 7) / 8;
        let num_bits: usize = num_bytes * 8;
        let num_hashes: u32 = if self.bits_per_key >= 44 {
            30
        } else if self.bits_per_key < 2 {
            1
        } else {
            (self.bits_per_key * 69 / 100) as u32
        };
        let mut bits: Vec<u8> = zeroed(num_bytes);
        let mut j: usize = 0;
        proof {
            assert forall|p: int| 0 <= p < num_bits implies !(#[trigger] bit_at(bits@, p)) by {
                lemma_zero_bit((p % 8) as u8);
            }
        }
        while j < self.keys.len()
            invariant
                j <= self.keys@.len(),
                num_bits == 8 * num_bytes,
                num_bits > 0,
                bits@.len() == num_bytes,
                forall|p: int|
                    0 <= p < num_bits ==> (#[trigger] bit_at(bits@, p) <==> picked(
                        self.keys@.take(j as int),
                        num_hashes,
                        num_bits as nat,
                        p,
                    )),
            decreases self.keys@.len() - j,
        {
            let ghost before = bits@;
            set_key_bits(&mut bits, self.keys[j].as_slice(), num_hashes);
            proof {
                let old_keys = self.keys@.take(j as int);
                let new_keys = self.keys@.take(j + 1);
                assert forall|p: int| 0 <= p < num_bits implies (#[trigger] bit_at(bits@, p)
                    <==> picked(new_keys, num_hashes, num_bits as nat, p)) by {
                    assert(bit_at(before, p) <==> picked(
                        old_keys,
                        num_hashes,
                        num_bits as nat,
                        p,
                    ));
                    if picked(old_keys, num_hashes, num_bits as nat, p) {
                        let (a, i) = choose|a: int, i: u32|
                            0 <= a < old_keys.len() && i < num_hashes && p == #[trigger] probe(
                                old_keys[a]@,
                                i,
                                num_bits as nat,
                            );
                        assert(new_keys[a] == old_keys[a]);
                        assert(p == probe(new_keys[a]@, i, num_bits as nat));
                    }
                    if exists|i: u32|
                        i < num_hashes && p == #[trigger] probe(
                            self.keys@[j as int]@,
                            i,
                            num_bits as nat,
                        ) {
                        let i = choose|i: u32|
                            i < num_hashes && p == #[trigger] probe(
                                self.keys@[j as int]@,
                                i,
                                num_bits as nat,
                            );
                        assert(new_keys[j as int] == self.keys@[j as int]);
                        assert(p == probe(new_keys[j as int]@, i, num_bits as nat));
                    }
                    if picked(new_keys, num_hashes, num_bits as nat, p) {
                        let (a, i) = choose|a: int, i: u32|
                            0 <= a < new_keys.len() && i < num_hashes && p == #[trigger] probe(
                                new_keys[a]@,
                                i,
                                num_bits as nat,
                            );
                        if a < j {
                            assert(new_keys[a] == old_keys[a]);
                            assert(p == probe(old_keys[a]@, i, num_bits as nat));
                        } else {
                            assert(new_keys[a] == self.keys@[j as int]);
                            assert(p == probe(self.keys@[j as int]@, i, num_bits as nat));
                        }
                    }
                    assert(bit_at(bits@, p) <==> bit_at(before, p) || exists|i: u32|
                        i < num_hashes && p == #[trigger] probe(
                            self.keys@[j as int]@,
                            i,
                            8 * before.len(),
                        ));
                }
            }
            j += 1;
        }
        assert(self.keys@.take(j as int) =~= self.keys@);
        BloomFilter::new(bits, num_hashes)
    }
}

/// `n` zero bytes.
fn zeroed(n: usize) -> (r: Vec<u8>)
    ensures
        r@.len() == n,
        forall|i: int| 0 <= i < n ==> r@[i] == 0,
{
    let mut r: Vec<u8> = Vec::new();
    while r.len() < n
        invariant
            r@.len() <= n,
            forall|i: int| 0 <= i < r@.len() ==> r@[i] == 0,
        decreases n - r@.len(),
    {
        r.push(0);
    }
    r
}

proof fn lemma_zero_bit(k: u8)
    ensures
        0u8 & (1u8 << k) == 0,
{
    assert(0u8 & (1u8 << k) == 0) by (bit_vector);
}

/// Setting bit `k` of a byte sets that bit and no other.
proof fn lemma_set_bit(b: u8, k: u8, j: u8)
    requires
        k < 8,
        j < 8,
    ensures
        ((b | (1u8 << k)) & (1u8 << j) != 0) == (j == k || b & (1u8 << j) != 0),
{
    assert(((b | (1u8 << k)) & (1u8 << j) != 0) == (j == k || b & (1u8 << j) != 0)) by (bit_vector)
        requires
            k < 8,
            j < 8,
    ;
}

/// Set the bits that the hashes of `key` pick.
fn set_key_bits(bits: &mut Vec<u8>, key: &[u8], num_hashes: u32)
    requires
        0 < old(bits)@.len(),
        8 * old(bits)@.len() <= usize::MAX,
    ensures
        final(bits)@.len() == old(bits)@.len(),
        forall|p: int|
            0 <= p < 8 * old(bits)@.len() ==> (#[trigger] bit_at(final(bits)@, p) <==> bit_at(
                old(bits)@,
                p,
            ) || exists|i: u32|
                i < num_hashes && p == #[trigger] probe(key@, i, 8 * old(bits)@.len())),
{
    let num_bits: usize = bits.len() * 8;
    let h: u64 = xxh3_64(key);
    let h1: u32 = h as u32;
    let h2: u32 = (h >> 32) as u32;
    let ghost b0 = bits@;
    let mut i: u32 = 0;
    while i < num_hashes
        invariant
            num_bits == 8 * b0.len(),
            num_bits > 0,
            bits@.len() == b0.len(),
            h == xxh3_hash64(key@),
            h1 == h as u32,
            h2 == (h >> 32) as u32,
            i <= num_hashes,
            forall|p: int|
                0 <= p < num_bits ==> (#[trigger] bit_at(bits@, p) <==> bit_at(b0, p) || exists|
                    a: u32,
                |
                    a < i && p == #[trigger] probe(key@, a, num_bits as nat)),
        decreases num_hashes - i,
    {
        let bit_pos: usize = h1.wrapping_add(h2.wrapping_mul(i)) as usize % num_bits;
        let ghost before = bits@;
        let byte: u8 = bits[bit_pos / 8];
        bits.set(bit_pos / 8, byte | (1u8 << ((bit_pos % 8) as u8)));
        proof {
            assert(bit_pos == probe(key@, i, num_bits as nat));
            assert forall|p: int| 0 <= p < num_bits implies (#[trigger] bit_at(bits@, p) <==> bit_at(
                b0,
                p,
            ) || exists|a: u32| a < i + 1 && p == #[trigger] probe(key@, a, num_bits as nat)) by {
                assert(bit_at(bits@, p) <==> bit_at(before, p) || p == bit_pos) by {
                    if p / 8 == bit_pos as int / 8 {
                        lemma_set_bit(byte, (bit_pos % 8) as u8, (p % 8) as u8);
                    }
                }
                assert(bit_at(before, p) <==> bit_at(b0, p) || exists|a: u32|
                    a < i && p == #[trigger] probe(key@, a, num_bits as nat));
                if exists|a: u32| a < i && p == #[trigger] probe(key@, a, num_bits as nat) {
                    let a = choose|a: u32|
                        a < i && p == #[trigger] probe(key@, a, num_bits as nat);
                    assert(a < i + 1 && p == probe(key@, a, num_bits as nat));
                }
                if exists|a: u32| a < i + 1 && p == #[trigger] probe(key@, a, num_bits as nat) {
                    let a = choose|a: u32|
                        a < i + 1 && p == #[trigger] probe(key@, a, num_bits as nat);
                    if a < i {
                        assert(a < i && p == probe(key@, a, num_bits as nat));
                    }
                }
            }
        }
        i += 1;
    }
}

/// A built filter passes every key that was added: there are no false
/// negatives.
pub proof fn lemma_no_false_negatives(
    keys: Seq<Vec<u8>>,
    bits: Seq<u8>,
    num_hashes: u32,
    j: int,
)
    requires
        0 <= j < keys.len(),
        forall|p: int|
            0 <= p < 8 * bits.len() ==> (#[trigger] bit_at(bits, p) <==> picked(
                keys,
                num_hashes,
                8 * bits.len(),
                p,
            )),
    ensures
        passes(bits, num_hashes, keys[j]@),
{
    if bits.len() > 0 {
        assert forall|i: u32| i < num_hashes implies bit_at(
            bits,
            #[trigger] probe(keys[j]@, i, 8 * bits.len()),
        ) by {
            let p = probe(keys[j]@, i, 8 * bits.len());
            assert(0 <= p < 8 * bits.len());
            assert(picked(keys, num_hashes, 8 * bits.len(), p));
        }
    }
}

/// The bytes of an encoded filter.
pub open spec fn bloom_bytes(bits: Seq<u8>, num_hashes: u32) -> Seq<u8> {
    le32(num_hashes) + bits
}

/// Serialize a bloom filter.
pub fn encode_bloom_block(bloom: &BloomFilter) -> (r: Vec<u8>)
    ensures
        r@ == bloom_bytes(bloom.bits(), bloom.hashes()),
{
    let mut data: Vec<u8> = Vec::new();
    put_le32(&mut data, bloom.num_hashes);
    append_bytes(&mut data, bloom.bits.as_slice());
    assert(data@ =~= bloom_bytes(bloom.bits(), bloom.hashes()));
    data
}

/// Parse a bloom filter. Too few bytes for the header make a filter without
/// bits.
pub fn decode_bloom_block(data: &[u8]) -> (r: BloomFilter)
    ensures
        data@.len() < 4 ==> r.bits() == Seq::<u8>::empty() && r.hashes() == 0,
        data@.len() >= 4 ==> r.hashes() == from_le32(data@.take(4)) && r.bits() == data@.skip(4),
{
    if data.len() < 4 {
        let r = BloomFilter::new(Vec::new(), 0);
        assert(r.bits() =~= Seq::<u8>::empty());
        return r;
    }
    let num_hashes: u32 = get_le32(data, 0);
    assert(data@.subrange(0, 4) =~= data@.take(4));
    let bits = copy_bytes(slice_subrange(data, 4, data.len()));
    assert(bits@ =~= data@.skip(4));
    BloomFilter::new(bits, num_hashes)
}

/// Encoding a filter and parsing it gives the filter back, so membership is
/// preserved.
pub proof fn lemma_bloom_round_trip(bits: Seq<u8>, num_hashes: u32)
    ensures
        bloom_bytes(bits, num_hashes).len() == 4 + bits.len(),
        from_le32(bloom_bytes(bits, num_hashes).take(4)) == num_hashes,
        bloom_bytes(bits, num_hashes).skip(4) == bits,
{
    lemma_le_round_trip();
    assert(bloom_bytes(bits, num_hashes).take(4) =~= le32(num_hashes));
    assert(bloom_bytes(bits, num_hashes).skip(4) =~= bits);
}

/// A filter has as many bits as were asked for, rounded up to whole bytes, and
/// eight bytes at least.
pub proof fn lemma_filter_is_as_large_as_asked_for(keys: nat, bits_per_key: nat)
    ensures
        filter_bytes(keys, bits_per_key) >= 8,
        8 * filter_bytes(keys, bits_per_key) >= keys * bits_per_key,
        filter_bytes(keys, bits_per_key) > 8 ==> 8 * (filter_bytes(keys, bits_per_key) - 1) < keys
            * bits_per_key,
{
}

/// The hash functions of a filter are 69 for every hundred bits that a key has,
/// whole ones only, from one to thirty.
pub proof fn lemma_hashes_follow_the_bits(bits_per_key: nat)
    ensures
        1 <= hash_count(bits_per_key) <= 30,
        1 < hash_count(bits_per_key) ==> 100 * hash_count(bits_per_key) <= 69 * bits_per_key,
        hash_count(bits_per_key) < 30 ==> 69 * bits_per_key < 100 * (hash_count(bits_per_key) + 1),
{
}

/// A hash of a key that was added picks the bit.
pub open spec fn is_hit(keys: Seq<Vec<u8>>, num_hashes: u32, num_bits: nat, p: int) -> bool {
    exists|j: int, k: u32|
        0 <= j < keys.len() && k < num_hashes && #[trigger] probe(keys[j]@, k, num_bits) == p
}

/// A built filter rules out every other key, but for those whose bits are all
/// hit by keys that were added.
pub proof fn lemma_filter_rules_out_what_nobody_picked(
    keys: Seq<Vec<u8>>,
    bits: Seq<u8>,
    num_hashes: u32,
    key: Seq<u8>,
)
    requires
        bits.len() > 0,
        forall|p: int|
            0 <= p < 8 * bits.len() ==> (#[trigger] bit_at(bits, p) <==> picked(
                keys,
                num_hashes,
                8 * bits.len(),
                p,
            )),
    ensures
        passes(bits, num_hashes, key) <==> forall|i: u32|
            i < num_hashes ==> is_hit(
                keys,
                num_hashes,
                8 * bits.len(),
                #[trigger] probe(key, i, 8 * bits.len()),
            ),
{
    let n = 8 * bits.len();
    assert forall|i: u32| i < num_hashes implies bit_at(bits, #[trigger] probe(key, i, n))
        == is_hit(keys, num_hashes, n, probe(key, i, n)) by {
        let p = probe(key, i, n);
        assert(0 <= p < n);
        assert(bit_at(bits, p) <==> picked(keys, num_hashes, n, p));
    }
}

} // verus!
