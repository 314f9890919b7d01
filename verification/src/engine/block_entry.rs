//! The entries of a data block.
//!
//! Each entry is
//! `[shared: varint][unshared: varint][value_len: varint][key_suffix][value]`,
//! where `shared` is the length of the prefix that the key has in common with
//! the key before it.

use super::varint::decode_varint;
use super::varint::encode_varint;
use super::varint::lemma_varint_extend;
use super::varint::lemma_varint_len;
use super::varint::lemma_varint_round_trip;
use super::varint::varint;
use super::varint::varint_ends;
use super::varint::varint_len;
use super::varint::varint_value;
use crate::bytes::append_bytes;
use crate::bytes::copy_bytes;
use vstd::prelude::*;
use vstd::slice::slice_subrange;

verus! {

/// A key and its value.
pub type Pair = (Seq<u8>, Seq<u8>);

// ── One entry at the front of a byte string ──────────────────────

/// What follows the first number of `s`.
pub open spec fn after1(s: Seq<u8>) -> Seq<u8> {
    s.skip(varint_len(s) as int)
}

/// What follows the second number of `s`.
pub open spec fn after2(s: Seq<u8>) -> Seq<u8> {
    after1(after1(s))
}

/// The length of the prefix shared with the key before.
pub open spec fn entry_shared(s: Seq<u8>) -> u64 {
    varint_value(s)
}

/// The length of the rest of the key.
pub open spec fn entry_unshared(s: Seq<u8>) -> u64 {
    varint_value(after1(s))
}

/// The length of the value.
pub open spec fn entry_value_len(s: Seq<u8>) -> u64 {
    varint_value(after2(s))
}

/// The length of the three numbers.
pub open spec fn header_len(s: Seq<u8>) -> nat {
    varint_len(s) + varint_len(after1(s)) + varint_len(after2(s))
}

/// The three numbers can be read.
pub open spec fn header_readable(s: Seq<u8>) -> bool {
    varint_len(s) <= 10 && varint_len(after1(s)) <= 10 && varint_len(after2(s)) <= 10
}

/// The length of the entry.
pub open spec fn entry_size(s: Seq<u8>) -> nat {
    header_len(s) + entry_unshared(s) as nat + entry_value_len(s) as nat
}

/// The key of the entry, after a key `prev`.
pub open spec fn entry_key(s: Seq<u8>, prev: Seq<u8>) -> Seq<u8> {
    prev.take(entry_shared(s) as int) + s.subrange(
        header_len(s) as int,
        header_len(s) + entry_unshared(s),
    )
}

/// The value of the entry.
pub open spec fn entry_value(s: Seq<u8>) -> Seq<u8> {
    s.subrange(header_len(s) + entry_unshared(s), entry_size(s) as int)
}

/// A whole entry stands at the front of `s`, and shares no more than there is
/// of the key before it.
pub open spec fn entry_ok(s: Seq<u8>, prev_len: nat) -> bool {
    &&& header_readable(s)
    &&& varint_ends(s)
    &&& varint_ends(after1(s))
    &&& varint_ends(after2(s))
    &&& entry_shared(s) <= prev_len
    &&& entry_size(s) <= s.len()
}

/// The encoding of an entry that shares `shared` bytes with the key before.
pub open spec fn encoded_entry(shared: nat, key: Seq<u8>, value: Seq<u8>) -> Seq<u8> {
    varint(shared) + varint((key.len() - shared) as nat) + varint(value.len()) + key.skip(
        shared as int,
    ) + value
}

/// The header lies within the string and is not empty.
pub proof fn lemma_header_len(s: Seq<u8>)
    ensures
        header_len(s) <= s.len(),
        varint_ends(s) && varint_ends(after1(s)) && varint_ends(after2(s)) ==> header_len(s) >= 3,
{
    lemma_varint_len(s);
    lemma_varint_len(after1(s));
    lemma_varint_len(after2(s));
}

/// What follows an entry does not matter to it.
pub proof fn lemma_entry_extend(s: Seq<u8>, t: Seq<u8>, prev: Seq<u8>)
    requires
        entry_ok(s, prev.len()),
    ensures
        entry_ok(s + t, prev.len()),
        entry_size(s + t) == entry_size(s),
        header_len(s + t) == header_len(s),
        entry_key(s + t, prev) == entry_key(s, prev),
        entry_value(s + t) == entry_value(s),
        entry_shared(s + t) == entry_shared(s),
{
    lemma_header_len(s);
    lemma_varint_len(s);
    lemma_varint_len(after1(s));
    lemma_varint_len(after2(s));
    lemma_varint_extend(s, t);
    assert((s + t).skip(varint_len(s) as int) =~= after1(s) + t);
    lemma_varint_extend(after1(s), t);
    assert((after1(s) + t).skip(varint_len(after1(s)) as int) =~= after2(s) + t);
    lemma_varint_extend(after2(s), t);
    assert(entry_key(s + t, prev) =~= entry_key(s, prev));
    assert(entry_value(s + t) =~= entry_value(s));
}

/// An encoded entry gives back its key and value.
pub proof fn lemma_encoded_entry(shared: u64, key: Seq<u8>, value: Seq<u8>, prev: Seq<u8>)
    requires
        shared <= key.len() <= u64::MAX,
        shared <= prev.len(),
        value.len() <= u64::MAX,
        prev.take(shared as int) == key.take(shared as int),
    ensures
        ({
            let e = encoded_entry(shared as nat, key, value);
            &&& entry_ok(e, prev.len())
            &&& entry_size(e) == e.len()
            &&& entry_key(e, prev) == key
            &&& entry_value(e) == value
            &&& entry_shared(e) == shared
            &&& e.len() >= 3
        }),
{
    let e = encoded_entry(shared as nat, key, value);
    let unshared = (key.len() - shared) as u64;
    let v1 = varint(shared as nat);
    let v2 = varint(unshared as nat);
    let v3 = varint(value.len());
    let tail = key.skip(shared as int) + value;
    lemma_varint_round_trip(shared, v2 + v3 + tail);
    lemma_varint_round_trip(unshared, v3 + tail);
    lemma_varint_round_trip(value.len() as u64, tail);
    assert(e =~= v1 + (v2 + v3 + tail));
    assert(after1(e) =~= v2 + (v3 + tail));
    assert(after2(e) =~= v3 + tail);
    assert(header_len(e) == v1.len() + v2.len() + v3.len());
    assert(e.subrange(header_len(e) as int, header_len(e) + unshared) =~= key.skip(shared as int));
    assert(key.take(shared as int) + key.skip(shared as int) =~= key);
    assert(entry_value(e) =~= value);
}

// ── A run of entries ─────────────────────────────────────────────

/// The entries that `s` is made of, after a key `prev`; `None` where `s` is
/// not a run of whole entries.
pub open spec fn parse(s: Seq<u8>, prev: Seq<u8>) -> Option<Seq<Pair>>
    decreases s.len(),
{
    if s.len() == 0 {
        Some(Seq::empty())
    } else if !entry_ok(s, prev.len()) || entry_size(s) == 0 {
        None
    } else {
        match parse(s.skip(entry_size(s) as int), entry_key(s, prev)) {
            Some(rest) => Some(seq![(entry_key(s, prev), entry_value(s))] + rest),
            None => None,
        }
    }
}

/// The key that a run of entries after `prev` ends with.
pub open spec fn last_key_of(es: Seq<Pair>, prev: Seq<u8>) -> Seq<u8> {
    if es.len() == 0 {
        prev
    } else {
        es.last().0
    }
}

/// The first entry of a run, and the run after it.
pub proof fn lemma_parse_step(s: Seq<u8>, prev: Seq<u8>)
    requires
        parse(s, prev) is Some,
        s.len() > 0,
    ensures
        entry_ok(s, prev.len()),
        3 <= entry_size(s) <= s.len(),
        parse(s.skip(entry_size(s) as int), entry_key(s, prev)) is Some,
        parse(s, prev)->0.len() > 0,
        parse(s, prev)->0[0] == (entry_key(s, prev), entry_value(s)),
        parse(s, prev)->0.skip(1) == parse(
            s.skip(entry_size(s) as int),
            entry_key(s, prev),
        )->0,
{
    lemma_header_len(s);
    let rest = parse(s.skip(entry_size(s) as int), entry_key(s, prev))->0;
    assert((seq![(entry_key(s, prev), entry_value(s))] + rest).skip(1) =~= rest);
}

/// A run that shares nothing at its start does not depend on the key before.
pub proof fn lemma_parse_fresh(s: Seq<u8>, a: Seq<u8>, b: Seq<u8>)
    requires
        s.len() > 0 ==> entry_shared(s) == 0,
    ensures
        parse(s, a) == parse(s, b),
{
    if s.len() > 0 && entry_ok(s, a.len()) {
        assert(a.take(0) =~= b.take(0));
    }
}

/// An entry before a run.
proof fn lemma_parse_front(s: Seq<u8>, prev: Seq<u8>, rest: Seq<Pair>)
    requires
        s.len() > 0,
        entry_ok(s, prev.len()),
        parse(s.skip(entry_size(s) as int), entry_key(s, prev)) == Some(rest),
    ensures
        parse(s, prev) == Some(seq![(entry_key(s, prev), entry_value(s))] + rest),
{
    lemma_header_len(s);
}

/// A run followed by one more entry.
#[verifier::spinoff_prover]
#[verifier::rlimit(40)]
pub proof fn lemma_parse_append(s: Seq<u8>, prev: Seq<u8>, e: Seq<u8>)
    requires
        parse(s, prev) is Some,
        entry_ok(e, last_key_of(parse(s, prev)->0, prev).len()),
        entry_size(e) == e.len(),
        e.len() > 0,
    ensures
        parse(s + e, prev) is Some,
        parse(s + e, prev)->0 == parse(s, prev)->0.push(
            (entry_key(e, last_key_of(parse(s, prev)->0, prev)), entry_value(e)),
        ),
    decreases s.len(),
{
    let es = parse(s, prev)->0;
    if s.len() == 0 {
        assert(s + e =~= e);
        assert(e.skip(entry_size(e) as int) =~= Seq::<u8>::empty());
        assert(parse(Seq::<u8>::empty(), entry_key(e, prev)) == Some(Seq::<Pair>::empty()));
        assert(parse(e, prev)->0 =~= es.push((entry_key(e, prev), entry_value(e))));
    } else {
        lemma_parse_step(s, prev);
        let k = entry_key(s, prev);
        let t = s.skip(entry_size(s) as int);
        lemma_entry_extend(s, e, prev);
        assert((s + e).skip(entry_size(s) as int) =~= t + e);
        let rest = parse(t, k)->0;
        assert(es == seq![(k, entry_value(s))] + rest);
        assert(last_key_of(rest, k) == last_key_of(es, prev));
        lemma_parse_append(t, k, e);
        let more = parse(t + e, k)->0;
        lemma_parse_front(s + e, prev, more);
        assert(seq![(k, entry_value(s))] + more =~= es.push(
            (entry_key(e, last_key_of(es, prev)), entry_value(e)),
        ));
    }
}

// ── Reading and writing entries ──────────────────────────────────

/// Read the three numbers of the entry at `pos`: the shared, unshared and
/// value lengths, and the offset after them.
fn read_header(data: &[u8], pos: usize) -> (r: (u64, u64, u64, usize))
    requires
        pos <= data@.len(),
        header_readable(data@.skip(pos as int)),
    ensures
        r.0 == entry_shared(data@.skip(pos as int)),
        r.1 == entry_unshared(data@.skip(pos as int)),
        r.2 == entry_value_len(data@.skip(pos as int)),
        r.3 == pos + header_len(data@.skip(pos as int)),
        r.3 <= data@.len(),
{
    let len: usize = data.len();
    let ghost s = data@.skip(pos as int);
    proof {
        lemma_header_len(s);
        lemma_varint_len(s);
        lemma_varint_len(after1(s));
    }
    let d1 = slice_subrange(data, pos, len);
    assert(d1@ =~= s);
    let (shared, n1) = decode_varint(d1);
    let d2 = slice_subrange(data, pos + n1, len);
    assert(d2@ =~= after1(s));
    let (unshared, n2) = decode_varint(d2);
    let d3 = slice_subrange(data, pos + n1 + n2, len);
    assert(d3@ =~= after2(s));
    let (value_len, n3) = decode_varint(d3);
    (shared, unshared, value_len, pos + n1 + n2 + n3)
}

/// Decode the entry at `pos`, turning `prev_key` into its key. Returns the
/// size of the entry and where its value is: `(bytes consumed, value offset,
/// value length)`.
pub fn decode_entry_at(data: &[u8], pos: usize, prev_key: &mut Vec<u8>) -> (r: (
    usize,
    usize,
    usize,
))
    requires
        pos <= data@.len(),
        header_readable(data@.skip(pos as int)),
        pos + entry_size(data@.skip(pos as int)) <= data@.len(),
    ensures
        r.0 == entry_size(data@.skip(pos as int)),
        r.1 == pos + header_len(data@.skip(pos as int)) + entry_unshared(data@.skip(pos as int)),
        r.2 == entry_value_len(data@.skip(pos as int)),
        r.1 + r.2 <= data@.len(),
        entry_shared(data@.skip(pos as int)) <= old(prev_key)@.len() ==> final(prev_key)@
            == entry_key(data@.skip(pos as int), old(prev_key)@),
        entry_shared(data@.skip(pos as int)) > old(prev_key)@.len() ==> final(prev_key)@ == old(
            prev_key,
        )@ + data@.subrange(
            pos + header_len(data@.skip(pos as int)),
            pos + header_len(data@.skip(pos as int)) + entry_unshared(data@.skip(pos as int)),
        ),
{
    let ghost s = data@.skip(pos as int);
    let len: usize = data.len();
    let (shared, unshared, value_len, offset) = read_header(data, pos);
    let ghost old_key = prev_key@;
    if shared < prev_key.len() as u64 {
        prev_key.truncate(shared as usize);
    }
    let ghost head = prev_key@;
    let suffix = slice_subrange(data, offset, offset + unshared as usize);
    append_bytes(prev_key, suffix);
    let value_offset: usize = offset + unshared as usize;
    proof {
        assert(suffix@ =~= s.subrange(header_len(s) as int, header_len(s) + unshared));
        if shared <= old_key.len() {
            assert(head =~= old_key.take(shared as int));
        }
    }
    (value_offset + value_len as usize - pos, value_offset, value_len as usize)
}

/// The key and the value of the entry at `pos`, after the key `prev_key`.
pub fn decode_block_entry(data: &[u8], pos: usize, prev_key: &[u8]) -> (r: (Vec<u8>, Vec<u8>))
    requires
        pos <= data@.len(),
        header_readable(data@.skip(pos as int)),
        pos + entry_size(data@.skip(pos as int)) <= data@.len(),
        entry_shared(data@.skip(pos as int)) <= prev_key@.len(),
    ensures
        r.0@ == entry_key(data@.skip(pos as int), prev_key@),
        r.1@ == entry_value(data@.skip(pos as int)),
{
    let len: usize = data.len();
    let mut key = copy_bytes(prev_key);
    let (_, value_offset, value_len) = decode_entry_at(data, pos, &mut key);
    assert(value_offset + value_len <= len);
    let value = copy_bytes(slice_subrange(data, value_offset, value_offset + value_len));
    assert(value@ =~= entry_value(data@.skip(pos as int)));
    (key, value)
}

/// The size of the entry at `pos`.
pub fn encoded_entry_size(data: &[u8], pos: usize) -> (r: usize)
    requires
        pos <= data@.len(),
        header_readable(data@.skip(pos as int)),
        entry_size(data@.skip(pos as int)) <= usize::MAX,
    ensures
        r == entry_size(data@.skip(pos as int)),
{
    let (_, unshared, value_len, offset) = read_header(data, pos);
    offset - pos + unshared as usize + value_len as usize
}

/// Append an entry that shares `shared` bytes with the key before it.
pub fn encode_entry(buf: &mut Vec<u8>, shared: usize, key: &[u8], value: &[u8])
    requires
        shared <= key@.len(),
    ensures
        final(buf)@ == old(buf)@ + encoded_entry(shared as nat, key@, value@),
{
    let ghost b0 = buf@;
    encode_varint(buf, shared as u64);
    encode_varint(buf, (key.len() - shared) as u64);
    encode_varint(buf, value.len() as u64);
    let suffix = slice_subrange(key, shared, key.len());
    assert(suffix@ =~= key@.skip(shared as int));
    append_bytes(buf, suffix);
    append_bytes(buf, value);
    assert(buf@ =~= b0 + encoded_entry(shared as nat, key@, value@));
}

/// Whether a whole entry stands at `pos` after a key of `prev_len` bytes; if
/// so, its size.
pub fn check_entry(data: &[u8], pos: usize, prev_len: usize) -> (r: Option<usize>)
    requires
        pos < data@.len(),
    ensures
        r is Some <==> entry_ok(data@.skip(pos as int), prev_len as nat),
        r matches Some(n) ==> n == entry_size(data@.skip(pos as int)) && n >= 3,
{
    let ghost s = data@.skip(pos as int);
    let len: usize = data.len();
    proof {
        lemma_header_len(s);
        lemma_varint_len(s);
        lemma_varint_len(after1(s));
        lemma_varint_len(after2(s));
    }
    let d1 = slice_subrange(data, pos, len);
    assert(d1@ =~= s);
    let (shared, n1) = match read_ended(d1) {
        Some(x) => x,
        None => return None,
    };
    let d2 = slice_subrange(data, pos + n1, len);
    assert(d2@ =~= after1(s));
    let (unshared, n2) = match read_ended(d2) {
        Some(x) => x,
        None => return None,
    };
    let d3 = slice_subrange(data, pos + n1 + n2, len);
    assert(d3@ =~= after2(s));
    let (value_len, n3) = match read_ended(d3) {
        Some(x) => x,
        None => return None,
    };
    if shared > prev_len as u64 {
        return None;
    }
    let room: u64 = (len - (pos + n1 + n2 + n3)) as u64;
    if unshared > room || value_len > room - unshared {
        return None;
    }
    Some(n1 + n2 + n3 + unshared as usize + value_len as usize)
}

/// The number at the front of `data`, if it ends within ten bytes.
fn read_ended(data: &[u8]) -> (r: Option<(u64, usize)>)
    ensures
        r is Some <==> varint_ends(data@) && varint_len(data@) <= 10,
        r matches Some(x) ==> x.0 == varint_value(data@) && x.1 == varint_len(data@) && 0 < x.1
            <= data@.len(),
{
    let mut i: usize = 0;
    proof {
        lemma_varint_len(data@);
    }
    while i < data.len() && i < 10
        invariant
            i <= data@.len(),
            i <= 10,
            forall|j: int| 0 <= j < i ==> data@[j] >= 128,
            i <= varint_len(data@),
        decreases 10 - i,
    {
        proof {
            lemma_varint_len(data@);
            if varint_len(data@) == i && i > 0 {
                assert(data@[i - 1] >= 128);
            }
        }
        if data[i] < 0x80 {
            proof {
                if varint_len(data@) > i + 1 {
                    assert(data@[i as int] >= 128);
                }
            }
            return Some(decode_varint(data));
        }
        i += 1;
    }
    None
}

} // verus!
