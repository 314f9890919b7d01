//! Internal key encoding shared by the memtable and the tables.
//!
//! Format: `[user_key][!seq as u64 BE][value_type: u8]`
//!
//! The complement of the sequence number makes the newer entries of one user
//! key (the higher sequence numbers) sort first. "The most recent version
//! visible at `snapshot_seq`" is then one forward seek: to
//! `user_key || !snapshot_seq || 0x00`.
//!
//! Comparing the encoded bytes directly is wrong where one user key is a
//! prefix of another: the `!seq` bytes of the shorter key would be held
//! against the data bytes of the longer. Every comparison goes through
//! [`internal_key_lt`], [`internal_key_le`] or [`compare_internal_keys`].

use crate::bytes::be64;
use crate::bytes::bytes_eq;
use crate::bytes::bytes_lt;
use crate::bytes::from_be64;
use crate::bytes::get_be64;
use crate::bytes::lemma_be64_order;
use crate::bytes::lemma_be64_round_trip;
use crate::bytes::lemma_from_be64_round_trip;
use crate::bytes::lemma_lex_common_prefix;
use crate::bytes::lemma_lex_decided_at;
use crate::bytes::lemma_lex_irreflexive;
use crate::bytes::lemma_lex_order;
use crate::bytes::lemma_lex_prepend;
use crate::bytes::lex_lt;
use crate::bytes::put_be64;
use vstd::prelude::*;

verus! {

/// Entry is a live value.
pub const VALUE_TYPE_VALUE: u8 = 1;

/// Entry is a deletion tombstone.
pub const VALUE_TYPE_DELETION: u8 = 0;

/// Entry is a merge operand: data that is combined with an older base value
/// (or with other operands) when it is read.
pub const VALUE_TYPE_MERGE: u8 = 2;

/// Size of the trailing `(seq, value_type)` suffix of an internal key.
pub const INTERNAL_KEY_SUFFIX_LEN: usize = 9;

/// `k` is long enough to carry the `(seq, value_type)` suffix.
pub open spec fn is_internal(k: Seq<u8>) -> bool {
    k.len() >= 9
}

/// The internal key of `(user_key, seq, value_type)`.
pub open spec fn internal_key(user_key: Seq<u8>, seq: u64, value_type: u8) -> Seq<u8> {
    user_key + be64(!seq) + seq![value_type]
}

/// The user key in an internal key.
pub open spec fn user_of(k: Seq<u8>) -> Seq<u8> {
    k.take(k.len() - 9)
}

/// The sequence number in an internal key.
pub open spec fn seq_of(k: Seq<u8>) -> u64 {
    !from_be64(k.subrange(k.len() - 9, k.len() - 1))
}

/// The value type in an internal key.
pub open spec fn type_of(k: Seq<u8>) -> u8 {
    k.last()
}

/// The order of internal keys: by user key, then by the trailer. Byte strings
/// too short for a trailer are ordered as they stand.
pub open spec fn ik_lt(a: Seq<u8>, b: Seq<u8>) -> bool {
    if a.len() < 9 || b.len() < 9 {
        lex_lt(a, b)
    } else {
        ||| lex_lt(user_of(a), user_of(b))
        ||| user_of(a) == user_of(b) && lex_lt(a.skip(a.len() - 9), b.skip(b.len() - 9))
    }
}

/// `a` comes before `b` in the order of internal keys, or is `b`.
pub open spec fn ik_le(a: Seq<u8>, b: Seq<u8>) -> bool {
    a == b || ik_lt(a, b)
}

/// Complementing a sequence number reverses the order and can be undone.
proof fn lemma_complement(x: u64, y: u64)
    ensures
        !(!x) == x,
        (!x < !y) == (y < x),
        !x == u64::MAX - x,
{
    assert(!(!x) == x) by (bit_vector);
    assert((!x < !y) == (y < x)) by (bit_vector);
    assert(!x == u64::MAX - x) by (bit_vector);
}

/// An internal key gives back the triple it was made from.
pub proof fn lemma_decode_encoded(user_key: Seq<u8>, seq: u64, value_type: u8)
    ensures
        is_internal(internal_key(user_key, seq, value_type)),
        internal_key(user_key, seq, value_type).len() == user_key.len() + 9,
        user_of(internal_key(user_key, seq, value_type)) == user_key,
        seq_of(internal_key(user_key, seq, value_type)) == seq,
        type_of(internal_key(user_key, seq, value_type)) == value_type,
{
    let k = internal_key(user_key, seq, value_type);
    lemma_be64_round_trip(!seq);
    assert(k.subrange(k.len() - 9, k.len() - 1) =~= be64(!seq));
    assert(user_of(k) =~= user_key);
    lemma_complement(seq, seq);
}

/// Every internal key is the encoding of its triple; so two internal keys
/// with the same triple are the same key.
pub proof fn lemma_encode_decoded(k: Seq<u8>)
    requires
        is_internal(k),
    ensures
        internal_key(user_of(k), seq_of(k), type_of(k)) == k,
{
    let s = k.subrange(k.len() - 9, k.len() - 1);
    lemma_from_be64_round_trip(s);
    lemma_complement(from_be64(s), 0);
    assert(internal_key(user_of(k), seq_of(k), type_of(k)) =~= k);
}

/// Internal keys are in the order of their user keys; among the entries of
/// one user key the newest comes first, and among entries with one sequence
/// number the value types decide.
pub proof fn lemma_internal_order(a: Seq<u8>, b: Seq<u8>)
    requires
        is_internal(a),
        is_internal(b),
    ensures
        ik_lt(a, b) <==> {
            ||| lex_lt(user_of(a), user_of(b))
            ||| user_of(a) == user_of(b) && seq_of(a) > seq_of(b)
            ||| user_of(a) == user_of(b) && seq_of(a) == seq_of(b) && type_of(a) < type_of(b)
        },
{
    let ta = a.skip(a.len() - 9);
    let tb = b.skip(b.len() - 9);
    let sa = a.subrange(a.len() - 9, a.len() - 1);
    let sb = b.subrange(b.len() - 9, b.len() - 1);
    let xa = from_be64(sa);
    let xb = from_be64(sb);
    lemma_from_be64_round_trip(sa);
    lemma_from_be64_round_trip(sb);
    lemma_be64_order(xa, xb);
    lemma_be64_order(xb, xa);
    lemma_complement(xa, xb);
    lemma_complement(xb, xa);
    assert(ta =~= sa + seq![type_of(a)]);
    assert(tb =~= sb + seq![type_of(b)]);
    if xa == xb {
        assert(sa == sb);
        lemma_lex_prepend(sa, seq![type_of(a)], seq![type_of(b)]);
        if type_of(a) != type_of(b) {
            lemma_lex_decided_at(seq![type_of(a)], seq![type_of(b)], 0);
        } else {
            assert(ta == tb);
            lemma_lex_irreflexive(ta);
        }
    } else {
        lemma_trailer_order(sa, sb, type_of(a), type_of(b));
    }
}

/// Different strings of one length decide the order whatever follows them.
proof fn lemma_trailer_order(sa: Seq<u8>, sb: Seq<u8>, ta: u8, tb: u8)
    requires
        sa.len() == sb.len(),
        sa != sb,
    ensures
        lex_lt(sa + seq![ta], sb + seq![tb]) == lex_lt(sa, sb),
    decreases sa.len(),
{
    if sa.len() == 0 {
        assert(sa =~= sb);
    } else if sa[0] != sb[0] {
        lemma_lex_decided_at(sa, sb, 0);
        lemma_lex_decided_at(sa + seq![ta], sb + seq![tb], 0);
    } else {
        assert(sa =~= seq![sa[0]] + sa.skip(1));
        assert(sb =~= seq![sb[0]] + sb.skip(1));
        lemma_trailer_order(sa.skip(1), sb.skip(1), ta, tb);
        assert((sa + seq![ta]).skip(1) =~= sa.skip(1) + seq![ta]);
        assert((sb + seq![tb]).skip(1) =~= sb.skip(1) + seq![tb]);
        lemma_lex_common_prefix(sa, sb, 1);
        lemma_lex_common_prefix(sa + seq![ta], sb + seq![tb], 1);
    }
}

/// The order of internal keys is a strict total order.
pub proof fn lemma_internal_total_order(a: Seq<u8>, b: Seq<u8>, c: Seq<u8>)
    requires
        is_internal(a),
        is_internal(b),
        is_internal(c),
    ensures
        ik_lt(a, b) || a == b || ik_lt(b, a),
        !(ik_lt(a, b) && ik_lt(b, a)),
        !ik_lt(a, a),
        ik_le(a, b) && ik_le(b, c) ==> ik_le(a, c),
        ik_lt(a, b) && ik_le(b, c) ==> ik_lt(a, c),
        ik_le(a, b) && ik_lt(b, c) ==> ik_lt(a, c),
{
    lemma_internal_order(a, b);
    lemma_internal_order(b, a);
    lemma_internal_order(b, c);
    lemma_internal_order(a, c);
    lemma_internal_order(a, a);
    lemma_lex_order(user_of(a), user_of(b), user_of(c));
    lemma_lex_order(user_of(b), user_of(a), user_of(c));
    lemma_lex_order(user_of(b), user_of(c), user_of(a));
    lemma_encode_decoded(a);
    lemma_encode_decoded(b);
    lemma_encode_decoded(c);
}

/// The order of byte strings of any length is total for each pair.
pub proof fn lemma_internal_trichotomy(a: Seq<u8>, b: Seq<u8>)
    ensures
        ik_lt(a, b) || a == b || ik_lt(b, a),
        !(ik_lt(a, b) && ik_lt(b, a)),
        !ik_lt(a, a),
{
    if a.len() < 9 || b.len() < 9 {
        lemma_lex_order(a, b, b);
        lemma_lex_order(b, a, a);
    } else {
        lemma_internal_total_order(a, b, b);
    }
    if is_internal(a) {
        lemma_internal_total_order(a, a, a);
    } else {
        lemma_lex_irreflexive(a);
    }
}

/// The search key of a snapshot parts the versions of its user key: those
/// written after the snapshot come before it, those visible at the snapshot
/// come at or after it.
pub proof fn lemma_lookup_key_parts_versions(user_key: Seq<u8>, snapshot_seq: u64, k: Seq<u8>)
    requires
        is_internal(k),
        user_of(k) == user_key,
    ensures
        seq_of(k) <= snapshot_seq <==> ik_le(
            internal_key(user_key, snapshot_seq, VALUE_TYPE_DELETION),
            k,
        ),
{
    let p = internal_key(user_key, snapshot_seq, VALUE_TYPE_DELETION);
    lemma_decode_encoded(user_key, snapshot_seq, VALUE_TYPE_DELETION);
    lemma_internal_order(p, k);
    lemma_internal_total_order(p, k, k);
    lemma_lex_irreflexive(user_key);
    lemma_encode_decoded(k);
}

/// Encode `(user_key, seq, value_type)`.
pub fn encode_internal_key(user_key: &[u8], seq: u64, value_type: u8) -> (k: Vec<u8>)
    ensures
        k@ == internal_key(user_key@, seq, value_type),
{
    let mut key = crate::bytes::copy_bytes(user_key);
    put_be64(&mut key, !seq);
    key.push(value_type);
    assert(key@ =~= internal_key(user_key@, seq, value_type));
    key
}

/// The `(user_key, seq, value_type)` of an internal key.
pub fn decode_internal_key(internal_key: &[u8]) -> (r: (&[u8], u64, u8))
    requires
        is_internal(internal_key@),
    ensures
        r.0@ == user_of(internal_key@),
        r.1 == seq_of(internal_key@),
        r.2 == type_of(internal_key@),
{
    let len: usize = internal_key.len();
    let value_type: u8 = internal_key[len - 1];
    let seq: u64 = !get_be64(internal_key, len - 9);
    let user_key = vstd::slice::slice_subrange(internal_key, 0, len - 9);
    assert(user_key@ =~= user_of(internal_key@));
    (user_key, seq, value_type)
}

/// The user key portion of an internal key.
pub fn user_key_of(internal_key: &[u8]) -> (r: &[u8])
    requires
        is_internal(internal_key@),
    ensures
        r@ == user_of(internal_key@),
{
    let r = vstd::slice::slice_subrange(internal_key, 0, internal_key.len() - INTERNAL_KEY_SUFFIX_LEN);
    assert(r@ =~= user_of(internal_key@));
    r
}

/// The search key for the most recent entry of `user_key` visible at
/// `snapshot_seq`: the first entry at or after it with this user key, if any.
pub fn lookup_key(user_key: &[u8], snapshot_seq: u64) -> (k: Vec<u8>)
    ensures
        k@ == internal_key(user_key@, snapshot_seq, VALUE_TYPE_DELETION),
{
    encode_internal_key(user_key, snapshot_seq, VALUE_TYPE_DELETION)
}

/// Whether `a` comes strictly before `b` in the order of internal keys.
pub fn internal_key_lt(a: &[u8], b: &[u8]) -> (r: bool)
    ensures
        r == ik_lt(a@, b@),
{
    if a.len() < INTERNAL_KEY_SUFFIX_LEN || b.len() < INTERNAL_KEY_SUFFIX_LEN {
        return bytes_lt(a, b);
    }
    let a_uk = user_key_of(a);
    let b_uk = user_key_of(b);
    if bytes_eq(a_uk, b_uk) {
        proof {
            lemma_lex_irreflexive(a_uk@);
        }
        let a_trailer = vstd::slice::slice_subrange(a, a_uk.len(), a.len());
        let b_trailer = vstd::slice::slice_subrange(b, b_uk.len(), b.len());
        assert(a_trailer@ =~= a@.skip(a@.len() - 9));
        assert(b_trailer@ =~= b@.skip(b@.len() - 9));
        bytes_lt(a_trailer, b_trailer)
    } else {
        bytes_lt(a_uk, b_uk)
    }
}

/// Three-way comparison in the order of internal keys.
pub fn compare_internal_keys(a: &[u8], b: &[u8]) -> (r: std::cmp::Ordering)
    ensures
        match r {
            std::cmp::Ordering::Less => ik_lt(a@, b@),
            std::cmp::Ordering::Equal => a@ == b@,
            std::cmp::Ordering::Greater => ik_lt(b@, a@),
        },
{
    proof {
        lemma_internal_trichotomy(a@, b@);
    }
    if internal_key_lt(a, b) {
        std::cmp::Ordering::Less
    } else if internal_key_lt(b, a) {
        std::cmp::Ordering::Greater
    } else {
        std::cmp::Ordering::Equal
    }
}

/// An owned internal key.
pub struct InternalKey(pub Vec<u8>);

impl InternalKey {
    /// The encoded bytes.
    pub fn as_slice(&self) -> (r: &[u8])
        ensures
            r@ == self.0@,
    {
        self.0.as_slice()
    }

    /// Compares the keys as [`compare_internal_keys`] does.
    pub fn compare(&self, other: &Self) -> (r: std::cmp::Ordering)
        ensures
            match r {
                std::cmp::Ordering::Less => ik_lt(self.0@, other.0@),
                std::cmp::Ordering::Equal => self.0@ == other.0@,
                std::cmp::Ordering::Greater => ik_lt(other.0@, self.0@),
            },
    {
        compare_internal_keys(self.0.as_slice(), other.0.as_slice())
    }
}

} // verus!
