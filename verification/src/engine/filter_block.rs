//! The filter region of a table: the user-key bloom filter plus the optional
//! prefix bloom filter, decoded as one unit.
//!
//! Format:
//!
//! ```text
//! [prefix_bloom_len: u64 LE][prefix bloom bytes][user-key bloom bytes]
//! ```
//!
//! A `prefix_bloom_len` of `0` means that the file was written without a
//! prefix extractor, or that the extractor yielded no prefixes.

use super::bloom::bloom_bytes;
use super::bloom::decode_bloom_block;
use super::bloom::lemma_bloom_round_trip;
use super::bloom::passes;
use super::bloom::BloomFilter;
use crate::bytes::from_le32;
use crate::bytes::from_le64;
use crate::bytes::get_le64;
use crate::bytes::le64;
use crate::bytes::lemma_le_round_trip;
use crate::error::Error;
use crate::error::ErrorKind;
use vstd::prelude::*;
use vstd::slice::slice_subrange;

verus! {

/// Header bytes in front of the prefix bloom.
pub const PREFIX_LEN_HEADER: usize = 8;

/// Smallest legal encoded bloom block.
pub const MIN_BLOOM_BLOCK: usize = 4;

/// The announced length of the prefix bloom.
pub open spec fn prefix_len(region: Seq<u8>) -> nat {
    from_le64(region.take(8)) as nat
}

/// `region` holds the length header, the prefix bloom that it announces, if
/// any, and a user bloom; each bloom has its own header.
pub open spec fn filter_region_ok(region: Seq<u8>) -> bool {
    &&& region.len() >= 8
    &&& 8 + prefix_len(region) <= region.len()
    &&& prefix_len(region) == 0 || prefix_len(region) >= 4
    &&& region.len() - 8 - prefix_len(region) >= 4
}

/// The encoded prefix bloom of a region.
pub open spec fn prefix_part(region: Seq<u8>) -> Seq<u8> {
    region.subrange(8, 8 + prefix_len(region) as int)
}

/// The encoded user-key bloom of a region.
pub open spec fn user_part(region: Seq<u8>) -> Seq<u8> {
    region.skip(8 + prefix_len(region) as int)
}

/// An encoded bloom passes `key`.
pub open spec fn encoded_passes(bloom: Seq<u8>, key: Seq<u8>) -> bool {
    passes(bloom.skip(4), from_le32(bloom.take(4)), key)
}

/// Both bloom filters of one table.
pub struct FilterBlock {
    user: BloomFilter,
    prefix: Option<BloomFilter>,
    charge: usize,
    region: Ghost<Seq<u8>>,
}

impl FilterBlock {
    /// The region that the block was decoded from.
    pub closed spec fn region(&self) -> Seq<u8> {
        self.region@
    }

    /// The filters are those of the region.
    pub closed spec fn wf(&self) -> bool {
        let r = self.region@;
        &&& filter_region_ok(r)
        &&& self.user.bits() == user_part(r).skip(4)
        &&& self.user.hashes() == from_le32(user_part(r).take(4))
        &&& self.prefix is Some <==> prefix_len(r) > 0
        &&& self.prefix matches Some(f) ==> f.bits() == prefix_part(r).skip(4) && f.hashes()
            == from_le32(prefix_part(r).take(4))
    }

    /// Decode the filter region read from a table.
    ///
    /// Rejects a region too short for the length header, a prefix length that
    /// runs past the region, and a bloom too short for its own header.
    pub fn decode(region: &[u8]) -> (r: Result<Self, Error>)
        ensures
            r is Ok <==> filter_region_ok(region@),
            r matches Err(e) ==> e.kind == ErrorKind::InvalidData,
            r matches Ok(f) ==> f.wf() && f.region() == region@ && f.held() >= region@.len(),
    {
        if region.len() < PREFIX_LEN_HEADER {
            return Err(
                Error::invalid_data("bloom region too short for prefix-bloom length header"),
            );
        }
        let len: usize = region.len();
        let announced: u64 = get_le64(region, 0);
        assert(region@.subrange(0, 8) =~= region@.take(8));
        if announced > (len - PREFIX_LEN_HEADER) as u64 {
            return Err(Error::invalid_data("prefix bloom length exceeds bloom region"));
        }
        let prefix_len: usize = announced as usize;
        let user_offset: usize = PREFIX_LEN_HEADER + prefix_len;
        if prefix_len > 0 && prefix_len < MIN_BLOOM_BLOCK {
            return Err(Error::invalid_data("prefix bloom block too short"));
        }
        if len - user_offset < MIN_BLOOM_BLOCK {
            return Err(Error::invalid_data("user bloom block too short"));
        }
        let prefix = if prefix_len > 0 {
            let part = slice_subrange(region, PREFIX_LEN_HEADER, user_offset);
            assert(part@ =~= prefix_part(region@));
            Some(decode_bloom_block(part))
        } else {
            None
        };
        let part = slice_subrange(region, user_offset, len);
        assert(part@ =~= user_part(region@));
        let user = decode_bloom_block(part);
        // The decoded filters hold the region's bit arrays without the
        // headers, so this never under-reports.
        let charge: usize = std::mem::size_of::<Self>().saturating_add(len);
        Ok(FilterBlock { user, prefix, charge, region: Ghost(region@) })
    }

    /// Whether this table *might* contain `user_key`. `false` means
    /// definitely not.
    pub fn may_contain(&self, user_key: &[u8]) -> (r: bool)
        requires
            self.wf(),
            8 * self.region().len() <= usize::MAX,
        ensures
            r == encoded_passes(user_part(self.region()), user_key@),
    {
        self.user.may_contain(user_key)
    }

    /// Whether this table *might* contain a key with this prefix. `true` when
    /// the file carries no prefix bloom, since there is no negative
    /// information to act on.
    pub fn may_have_prefix(&self, prefix: &[u8]) -> (r: bool)
        requires
            self.wf(),
            8 * self.region().len() <= usize::MAX,
        ensures
            r == (prefix_len(self.region()) == 0 || encoded_passes(
                prefix_part(self.region()),
                prefix@,
            )),
    {
        match &self.prefix {
            Some(filter) => filter.may_contain(prefix),
            None => true,
        }
    }

    /// The heap bytes charged for the block.
    pub closed spec fn held(&self) -> usize {
        self.charge
    }

    /// Heap bytes held, for block-cache charging.
    pub fn charge(&self) -> (r: usize)
        ensures
            r == self.held(),
    {
        self.charge
    }
}

/// The region that a table writes for an encoded prefix bloom (or none) and an
/// encoded user-key bloom.
pub open spec fn region_bytes(prefix: Seq<u8>, user: Seq<u8>) -> Seq<u8> {
    le64(prefix.len() as u64) + prefix + user
}

/// What is written as a filter region is decoded to the filters written.
pub proof fn lemma_filter_round_trip(
    prefix: Option<(Seq<u8>, u32)>,
    user_bits: Seq<u8>,
    user_hashes: u32,
)
    requires
        prefix matches Some(p) ==> 4 + p.0.len() <= u64::MAX,
    ensures
        ({
            let p = match prefix {
                Some(p) => bloom_bytes(p.0, p.1),
                None => Seq::<u8>::empty(),
            };
            let region = region_bytes(p, bloom_bytes(user_bits, user_hashes));
            &&& filter_region_ok(region)
            &&& forall|key: Seq<u8>| #[trigger]
                encoded_passes(user_part(region), key) == passes(user_bits, user_hashes, key)
            &&& prefix is None ==> prefix_len(region) == 0
            &&& prefix matches Some(b) ==> prefix_len(region) > 0 && forall|key: Seq<u8>|
                #[trigger] encoded_passes(prefix_part(region), key) == passes(b.0, b.1, key)
        }),
{
    let p = match prefix {
        Some(p) => bloom_bytes(p.0, p.1),
        None => Seq::<u8>::empty(),
    };
    let u = bloom_bytes(user_bits, user_hashes);
    let region = region_bytes(p, u);
    lemma_le_round_trip();
    lemma_bloom_round_trip(user_bits, user_hashes);
    if let Some(b) = prefix {
        lemma_bloom_round_trip(b.0, b.1);
    }
    assert(region.take(8) =~= le64(p.len() as u64));
    assert(prefix_part(region) =~= p);
    assert(user_part(region) =~= u);
}

} // verus!
