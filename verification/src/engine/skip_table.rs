//! The skip list under the memtable.
//!
//! The list is keyed by `(user key, complement of the sequence number, value
//! type)`. The order that std gives to such a tuple (lexicographic, the user
//! keys compared byte by byte) is the order of the internal keys it stands for.

use super::block_entry::Pair;
use super::internal_key::ik_lt;
use super::internal_key::internal_key;
use super::internal_key::lemma_decode_encoded;
use super::internal_key::lemma_internal_order;
use crate::bytes::lemma_lex_order;
use crate::bytes::lex_lt;
use crossbeam_skiplist::SkipMap;
use vstd::prelude::*;

verus! {

/// `crossbeam_skiplist::SkipMap`.
#[verifier::external_type_specification]
#[verifier::external_body]
#[verifier::reject_recursive_types(K)]
#[verifier::reject_recursive_types(V)]
pub struct ExSkipMap<K, V>(SkipMap<K, V>);

/// The key of an entry.
pub type TableKey = (Vec<u8>, u64, u8);

/// The list.
pub type Table = SkipMap<(Vec<u8>, u64, u8), Vec<u8>>;

/// What a key says.
pub type KeyView = (Seq<u8>, u64, u8);

/// What an entry says.
pub type Slot = (KeyView, Seq<u8>);

/// What a key says.
pub open spec fn key_view(k: TableKey) -> KeyView {
    (k.0@, k.1, k.2)
}

/// The order of keys.
pub open spec fn key_lt(a: KeyView, b: KeyView) -> bool {
    ||| lex_lt(a.0, b.0)
    ||| a.0 == b.0 && a.1 < b.1
    ||| a.0 == b.0 && a.1 == b.1 && a.2 < b.2
}

/// The entries of a list, in the order of their keys.
pub uninterp spec fn slots(t: Table) -> Seq<Slot>;

/// Entries in strictly ascending order of keys.
pub open spec fn slots_sorted(s: Seq<Slot>) -> bool {
    forall|i: int, j: int| 0 <= i < j < s.len() ==> key_lt((#[trigger] s[i]).0, (#[trigger] s[j]).0)
}

/// `s` holds an entry with this key and value.
pub open spec fn holds_slot(s: Seq<Slot>, k: KeyView, v: Seq<u8>) -> bool {
    exists|i: int| 0 <= i < s.len() && #[trigger] s[i] == (k, v)
}

/// `SkipMap::new` makes an empty list.
#[verifier::external_body]
pub(crate) fn table_new() -> (t: Table)
    ensures
        slots(t) == Seq::<Slot>::empty(),
{
    SkipMap::new()
}

/// `SkipMap::insert` puts an entry in its place in the order; an entry with
/// the same key is removed first.
#[verifier::external_body]
pub(crate) fn table_insert(t: &mut Table, key: TableKey, value: Vec<u8>)
    requires
        slots_sorted(slots(*old(t))),
    ensures
        slots_sorted(slots(*final(t))),
        forall|k: KeyView, v: Seq<u8>| #[trigger]
            holds_slot(slots(*final(t)), k, v) == if k == key_view(key) {
                v == value@
            } else {
                holds_slot(slots(*old(t)), k, v)
            },
{
    t.insert(key, value);
}

/// The front of `SkipMap::range(from..)`: the first entry whose key does not
/// come before `from`.
#[verifier::external_body]
pub(crate) fn table_first_from(t: &Table, from: TableKey) -> (r: Option<(TableKey, Vec<u8>)>)
    requires
        slots_sorted(slots(*t)),
    ensures
        r matches Some(e) ==> exists|i: int|
            0 <= i < slots(*t).len() && #[trigger] slots(*t)[i] == (key_view(e.0), e.1@)
                && !key_lt(slots(*t)[i].0, key_view(from)) && forall|j: int|
                0 <= j < i ==> key_lt((#[trigger] slots(*t)[j]).0, key_view(from)),
        r is None ==> forall|j: int|
            0 <= j < slots(*t).len() ==> key_lt((#[trigger] slots(*t)[j]).0, key_view(from)),
{
    t.range(from..).next().map(|e| (e.key().clone(), e.value().clone()))
}

/// The back of `SkipMap::range(..below)`: the last entry whose key comes
/// before `below`.
#[verifier::external_body]
pub(crate) fn table_last_below(t: &Table, below: TableKey) -> (r: Option<(TableKey, Vec<u8>)>)
    requires
        slots_sorted(slots(*t)),
    ensures
        r matches Some(e) ==> exists|i: int|
            0 <= i < slots(*t).len() && #[trigger] slots(*t)[i] == (key_view(e.0), e.1@) && key_lt(
                slots(*t)[i].0,
                key_view(below),
            ) && forall|j: int|
                i < j < slots(*t).len() ==> !key_lt((#[trigger] slots(*t)[j]).0, key_view(below)),
        r is None ==> forall|j: int|
            0 <= j < slots(*t).len() ==> !key_lt((#[trigger] slots(*t)[j]).0, key_view(below)),
{
    t.range(..below).next_back().map(|e| (e.key().clone(), e.value().clone()))
}

/// `SkipMap::back`: the last entry.
#[verifier::external_body]
pub(crate) fn table_back(t: &Table) -> (r: Option<(TableKey, Vec<u8>)>)
    ensures
        r is Some <==> slots(*t).len() > 0,
        r matches Some(e) ==> slots(*t).last() == (key_view(e.0), e.1@),
{
    t.back().map(|e| (e.key().clone(), e.value().clone()))
}

/// `SkipMap::iter`: all entries in the order of their keys.
#[verifier::external_body]
pub(crate) fn table_entries(t: &Table) -> (r: Vec<(TableKey, Vec<u8>)>)
    ensures
        r@.len() == slots(*t).len(),
        forall|i: int|
            0 <= i < r@.len() ==> slots(*t)[i] == (key_view((#[trigger] r@[i]).0), r@[i].1@),
{
    t.iter().map(|e| (e.key().clone(), e.value().clone())).collect()
}

/// `SkipMap::is_empty`.
#[verifier::external_body]
pub(crate) fn table_is_empty(t: &Table) -> (r: bool)
    ensures
        r == (slots(*t).len() == 0),
{
    t.is_empty()
}

// ── As internal keys ─────────────────────────────────────────────

/// The internal key that a key stands for.
pub open spec fn key_bytes(k: KeyView) -> Seq<u8> {
    internal_key(k.0, !k.1, k.2)
}

/// The entry with its internal key.
pub open spec fn slot_pair(s: Slot) -> Pair {
    (key_bytes(s.0), s.1)
}

/// The entries with their internal keys.
pub open spec fn slot_pairs(s: Seq<Slot>) -> Seq<Pair> {
    s.map_values(|e: Slot| slot_pair(e))
}

/// Keys are in the order of the internal keys they stand for.
pub proof fn lemma_key_order(a: KeyView, b: KeyView)
    ensures
        key_lt(a, b) == ik_lt(key_bytes(a), key_bytes(b)),
        key_bytes(a) == key_bytes(b) ==> a == b,
{
    lemma_decode_encoded(a.0, !a.1, a.2);
    lemma_decode_encoded(b.0, !b.1, b.2);
    lemma_internal_order(key_bytes(a), key_bytes(b));
    lemma_complements(a.1, b.1);
}

proof fn lemma_complements(x: u64, y: u64)
    ensures
        (!x > !y) == (x < y),
        (!x == !y) == (x == y),
        !(!x) == x,
{
    assert((!x > !y) == (x < y)) by (bit_vector);
    assert((!x == !y) == (x == y)) by (bit_vector);
    assert(!(!x) == x) by (bit_vector);
}

/// The order of keys is a strict total order.
pub proof fn lemma_key_total(a: KeyView, b: KeyView, c: KeyView)
    ensures
        key_lt(a, b) || a == b || key_lt(b, a),
        !(key_lt(a, b) && key_lt(b, a)),
        !key_lt(a, a),
        key_lt(a, b) && key_lt(b, c) ==> key_lt(a, c),
{
    lemma_lex_order(a.0, b.0, c.0);
    lemma_lex_order(b.0, a.0, c.0);
    lemma_lex_order(b.0, c.0, a.0);
}

/// The complement of a complement.
pub proof fn lemma_complement_twice(x: u64)
    ensures
        !(!x) == x,
{
    lemma_complements(x, x);
}

} // verus!
