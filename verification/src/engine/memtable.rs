//! The in-memory sorted table that takes the writes.
//!
//! Point entries live in a skip list; range tombstones live beside it, so that
//! point lookups do not have to look at them.

use super::block::pairs;
use super::block::sorted_entries;
use super::block_entry::Pair;
use super::internal_key::decode_internal_key;
use super::internal_key::encode_internal_key;
use super::internal_key::ik_le;
use super::internal_key::ik_lt;
use super::internal_key::internal_key;
use super::internal_key::is_internal;
use super::internal_key::lemma_decode_encoded;
use super::internal_key::lemma_encode_decoded;
use super::internal_key::lemma_internal_total_order;
use super::internal_key::seq_of;
use super::internal_key::type_of;
use super::internal_key::user_of;
use super::internal_key::VALUE_TYPE_DELETION;
use super::internal_key::VALUE_TYPE_MERGE;
use super::internal_key::VALUE_TYPE_VALUE;
use super::range_tombstone::copy_tombstones;
use super::range_tombstone::exclusive_successor;
use super::range_tombstone::lemma_exclusive_successor;
use super::range_tombstone::max_covering;
use super::range_tombstone::max_covering_seq;
use super::range_tombstone::RangeTombstone;
use super::skip_table::holds_slot;
use super::skip_table::key_bytes;
use super::skip_table::key_lt;
use super::skip_table::key_view;
use super::skip_table::lemma_complement_twice;
use super::skip_table::lemma_key_order;
use super::skip_table::lemma_key_total;
use super::skip_table::slot_pairs;
use super::skip_table::slots;
use super::skip_table::slots_sorted;
use super::skip_table::table_back;
use super::skip_table::table_entries;
use super::skip_table::table_first_from;
use super::skip_table::table_insert;
use super::skip_table::table_is_empty;
use super::skip_table::table_last_below;
use super::skip_table::table_new;
use super::skip_table::KeyView;
use super::skip_table::Slot;
use super::skip_table::Table;
use super::skip_table::TableKey;
use super::versions::chain;
use super::versions::chain_ended;
use super::versions::found;
use super::versions::holds_pair;
use super::versions::is_inserted;
use super::versions::lemma_none_visible;
use super::versions::lemma_skip_invisible;
use super::versions::newest;
use super::versions::visible;
use super::versions::Link;
use crate::bytes::bytes_eq;
use crate::bytes::bytes_lt;
use crate::bytes::copy_bytes;
use crate::bytes::lemma_lex_order;
use crate::bytes::lex_le;
use crate::bytes::lex_lt;
use vstd::prelude::*;

verus! {

// ── Keys of the list ─────────────────────────────────────────────

/// The list's key for an internal key.
fn table_key(user_key: &[u8], seq: u64, value_type: u8) -> (k: TableKey)
    ensures
        key_bytes(key_view(k)) == internal_key(user_key@, seq, value_type),
        key_view(k) == (user_key@, !seq, value_type),
{
    proof {
        lemma_complement_twice(seq);
    }
    (copy_bytes(user_key), !seq, value_type)
}

/// The list's key for an encoded internal key.
fn table_key_of(ik: &[u8]) -> (k: TableKey)
    requires
        is_internal(ik@),
    ensures
        key_bytes(key_view(k)) == ik@,
        key_view(k) == key_for(ik@),
{
    let (user_key, seq, value_type) = decode_internal_key(ik);
    proof {
        lemma_encode_decoded(ik@);
    }
    table_key(user_key, seq, value_type)
}

/// The internal key of an entry of the list.
fn bytes_of(k: &TableKey) -> (r: Vec<u8>)
    ensures
        r@ == key_bytes(key_view(*k)),
{
    encode_internal_key(k.0.as_slice(), !k.1, k.2)
}

/// The least key after `k`.
fn next_key(k: &TableKey) -> (r: TableKey)
    ensures
        forall|x: KeyView| #[trigger]
            key_lt(x, key_view(r)) == (key_lt(x, key_view(*k)) || x == key_view(*k)),
{
    let r: TableKey = if k.2 < 255 {
        (copy_bytes(k.0.as_slice()), k.1, k.2 + 1)
    } else if k.1 < u64::MAX {
        (copy_bytes(k.0.as_slice()), k.1 + 1, 0)
    } else {
        (exclusive_successor(k.0.as_slice()), 0, 0)
    };
    proof {
        let kv = key_view(*k);
        let rv = key_view(r);
        assert forall|x: KeyView| #[trigger] key_lt(x, rv) == (key_lt(x, kv) || x == kv) by {
            lemma_lex_order(x.0, kv.0, kv.0);
            lemma_lex_order(kv.0, x.0, rv.0);
            lemma_lex_order(x.0, rv.0, rv.0);
            lemma_lex_order(x.0, kv.0, rv.0);
            if k.2 == 255 && k.1 == u64::MAX {
                lemma_exclusive_successor(kv.0, x.0);
                lemma_lex_order(rv.0, x.0, rv.0);
            }
        }
    }
    r
}

// ── Slots and pairs ──────────────────────────────────────────────

/// Sorted slots are sorted entries.
pub proof fn lemma_slots_sorted(s: Seq<Slot>)
    requires
        slots_sorted(s),
    ensures
        sorted_entries(slot_pairs(s)),
{
    let es = slot_pairs(s);
    assert forall|i: int| 0 <= i < es.len() implies is_internal((#[trigger] es[i]).0) by {
        lemma_decode_encoded(s[i].0.0, !s[i].0.1, s[i].0.2);
    }
    assert forall|i: int, j: int| 0 <= i < j < es.len() implies ik_lt(
        (#[trigger] es[i]).0,
        (#[trigger] es[j]).0,
    ) by {
        assert(key_lt(s[i].0, s[j].0));
        lemma_key_order(s[i].0, s[j].0);
    }
}

/// The key that an internal key stands for in the list.
spec fn key_for(k: Seq<u8>) -> KeyView {
    (user_of(k), !seq_of(k), type_of(k))
}

proof fn lemma_key_for(k: Seq<u8>)
    requires
        is_internal(k),
    ensures
        key_bytes(key_for(k)) == k,
{
    lemma_encode_decoded(k);
    lemma_complement_twice(seq_of(k));
}

proof fn lemma_holds_same(s: Seq<Slot>, k: Seq<u8>, v: Seq<u8>)
    ensures
        holds_pair(slot_pairs(s), k, v) == (is_internal(k) && holds_slot(s, key_for(k), v)),
{
    let es = slot_pairs(s);
    if holds_pair(es, k, v) {
        let i = choose|i: int| 0 <= i < es.len() && #[trigger] es[i] == (k, v);
        lemma_decode_encoded(s[i].0.0, !s[i].0.1, s[i].0.2);
        lemma_key_for(k);
        lemma_key_order(s[i].0, key_for(k));
        assert(s[i] == (key_for(k), v));
    }
    if is_internal(k) && holds_slot(s, key_for(k), v) {
        lemma_key_for(k);
        let i = choose|i: int| 0 <= i < s.len() && #[trigger] s[i] == (key_for(k), v);
        assert(es[i] == (k, v));
    }
}

// ── Bounds ───────────────────────────────────────────────────────

/// Where a walk starts or ends, in internal keys.
pub enum KeyBound<'a> {
    Included(&'a [u8]),
    Excluded(&'a [u8]),
    Unbounded,
}

impl<'a> KeyBound<'a> {
    /// The bound, if there is one, is an internal key.
    pub open spec fn ok(self) -> bool {
        match self {
            KeyBound::Included(b) => is_internal(b@),
            KeyBound::Excluded(b) => is_internal(b@),
            KeyBound::Unbounded => true,
        }
    }

    /// As a lower bound, it shuts `k` out.
    pub open spec fn shuts_below(self, k: Seq<u8>) -> bool {
        match self {
            KeyBound::Included(b) => ik_lt(k, b@),
            KeyBound::Excluded(b) => ik_le(k, b@),
            KeyBound::Unbounded => false,
        }
    }

    /// As an upper bound, it shuts `k` out.
    pub open spec fn shuts_above(self, k: Seq<u8>) -> bool {
        match self {
            KeyBound::Included(b) => ik_lt(b@, k),
            KeyBound::Excluded(b) => ik_le(b@, k),
            KeyBound::Unbounded => false,
        }
    }
}

/// How many entries of `es` have a user key in `[start, end)`.
pub open spec fn range_count(es: Seq<Pair>, start: Seq<u8>, end: Seq<u8>) -> nat
    decreases es.len(),
{
    if es.len() == 0 {
        0
    } else {
        range_count(es.drop_last(), start, end) + if in_user_range(es.last(), start, end) {
            1nat
        } else {
            0nat
        }
    }
}

/// The length of the keys and values of those entries.
pub open spec fn range_size(es: Seq<Pair>, start: Seq<u8>, end: Seq<u8>) -> nat
    decreases es.len(),
{
    if es.len() == 0 {
        0
    } else {
        range_size(es.drop_last(), start, end) + if in_user_range(es.last(), start, end) {
            es.last().0.len() + es.last().1.len()
        } else {
            0nat
        }
    }
}

/// The user key of an entry is in `[start, end)`.
pub open spec fn in_user_range(p: Pair, start: Seq<u8>, end: Seq<u8>) -> bool {
    lex_le(start, user_of(p.0)) && lex_lt(user_of(p.0), end)
}

proof fn lemma_range_prefix(es: Seq<Pair>, start: Seq<u8>, end: Seq<u8>, n: int)
    requires
        0 <= n <= es.len(),
    ensures
        range_size(es.take(n), start, end) <= range_size(es, start, end),
        range_count(es.take(n), start, end) <= n,
        n < es.len() ==> range_count(es.take(n + 1), start, end) == range_count(
            es.take(n),
            start,
            end,
        ) + if in_user_range(es[n], start, end) {
            1nat
        } else {
            0nat
        },
        n < es.len() ==> range_size(es.take(n + 1), start, end) == range_size(
            es.take(n),
            start,
            end,
        ) + if in_user_range(es[n], start, end) {
            es[n].0.len() + es[n].1.len()
        } else {
            0nat
        },
    decreases es.len() - n, n,
{
    if n < es.len() {
        assert(es.take(n + 1).drop_last() =~= es.take(n));
        assert(es.take(n + 1).last() == es[n]);
        lemma_range_prefix_size(es, start, end, n);
    } else {
        assert(es.take(n) =~= es);
    }
    lemma_range_count_bound(es.take(n), start, end);
}

proof fn lemma_range_prefix_size(es: Seq<Pair>, start: Seq<u8>, end: Seq<u8>, n: int)
    requires
        0 <= n <= es.len(),
    ensures
        range_size(es.take(n), start, end) <= range_size(es, start, end),
    decreases es.len(),
{
    if n == es.len() {
        assert(es.take(n) =~= es);
    } else {
        assert(es.drop_last().take(n) =~= es.take(n));
        lemma_range_prefix_size(es.drop_last(), start, end, n);
    }
}

proof fn lemma_range_count_bound(es: Seq<Pair>, start: Seq<u8>, end: Seq<u8>)
    ensures
        range_count(es, start, end) <= es.len(),
    decreases es.len(),
{
    if es.len() > 0 {
        lemma_range_count_bound(es.drop_last(), start, end);
    }
}

proof fn lemma_range_tail(es: Seq<Pair>, start: Seq<u8>, end: Seq<u8>, n: int)
    requires
        0 <= n <= es.len(),
        forall|i: int| n <= i < es.len() ==> !in_user_range(#[trigger] es[i], start, end),
    ensures
        range_count(es.take(n), start, end) == range_count(es, start, end),
        range_size(es.take(n), start, end) == range_size(es, start, end),
    decreases es.len(),
{
    if n == es.len() {
        assert(es.take(n) =~= es);
    } else {
        assert(!in_user_range(es[es.len() - 1], start, end));
        assert(es.drop_last().take(n) =~= es.take(n));
        assert forall|i: int| n <= i < es.drop_last().len() implies !in_user_range(
            #[trigger] es.drop_last()[i],
            start,
            end,
        ) by {
            assert(es.drop_last()[i] == es[i]);
        }
        lemma_range_tail(es.drop_last(), start, end, n);
    }
}

/// A counter of bytes that wraps around, after `a + b` more.
pub open spec fn charge_after(before: usize, a: nat, b: nat) -> usize {
    ((before + a + b) % (usize::MAX + 1)) as usize
}

proof fn lemma_wrapping(x: usize, y: usize)
    ensures
        x.wrapping_add(y) == (x + y) % (usize::MAX + 1),
{
    let m = usize::MAX as int + 1;
    if x + y >= m {
        vstd::arithmetic::div_mod::lemma_mod_add_multiples_vanish(x + y - m, m);
        vstd::arithmetic::div_mod::lemma_small_mod((x + y - m) as nat, m as nat);
    } else {
        vstd::arithmetic::div_mod::lemma_small_mod((x + y) as nat, m as nat);
    }
}

// ── The memtable ─────────────────────────────────────────────────

/// In-memory sorted table. One writer at a time; the versions of a key stay
/// until the table is flushed.
pub struct MemTable {
    data: Table,
    range_tombstones: Vec<RangeTombstone>,
    approximate_size: usize,
}

impl MemTable {
    closed spec fn slots(&self) -> Seq<Slot> {
        slots(self.data)
    }

    /// The point entries, in the order of their internal keys.
    pub closed spec fn entries(&self) -> Seq<Pair> {
        slot_pairs(slots(self.data))
    }

    /// The range tombstones, oldest first.
    pub closed spec fn tombstones(&self) -> Seq<RangeTombstone> {
        self.range_tombstones@
    }

    /// The bytes charged so far.
    pub closed spec fn charged(&self) -> usize {
        self.approximate_size
    }

    /// The point entries are in order.
    pub closed spec fn wf(&self) -> bool {
        slots_sorted(slots(self.data))
    }

    /// The entries of a memtable are sorted.
    pub proof fn lemma_sorted(&self)
        requires
            self.wf(),
        ensures
            sorted_entries(self.entries()),
    {
        lemma_slots_sorted(slots(self.data));
    }

    /// An empty table.
    pub fn new() -> (r: Self)
        ensures
            r.wf(),
            r.entries() == Seq::<Pair>::empty(),
            r.tombstones() == Seq::<RangeTombstone>::empty(),
            r.charged() == 0,
    {
        let r = MemTable {
            data: table_new(),
            range_tombstones: Vec::new(),
            approximate_size: 0,
        };
        assert(r.entries() =~= Seq::<Pair>::empty());
        r
    }

    /// Count `a + b + c` more bytes.
    fn charge(&mut self, a: usize, b: usize, c: usize)
        ensures
            final(self).data == old(self).data,
            final(self).range_tombstones == old(self).range_tombstones,
            final(self).charged() == charge_after(old(self).charged(), a as nat + b as nat, c as nat),
    {
        let ghost before = self.approximate_size;
        self.approximate_size = self.approximate_size.wrapping_add(a).wrapping_add(b).wrapping_add(
            c,
        );
        proof {
            let m = usize::MAX as int + 1;
            lemma_wrapping(before, a);
            lemma_wrapping(before.wrapping_add(a), b);
            lemma_wrapping(before.wrapping_add(a).wrapping_add(b), c);
            vstd::arithmetic::div_mod::lemma_add_mod_noop(before + a, b as int, m);
            vstd::arithmetic::div_mod::lemma_add_mod_noop(before + a + b, c as int, m);
            vstd::arithmetic::div_mod::lemma_small_mod(b as nat, m as nat);
            vstd::arithmetic::div_mod::lemma_small_mod(c as nat, m as nat);
        }
    }

    /// Put an entry in its place, over one with the same internal key.
    fn insert(&mut self, key: &[u8], seq: u64, value_type: u8, value: &[u8])
        requires
            old(self).wf(),
        ensures
            final(self).wf(),
            final(self).tombstones() == old(self).tombstones(),
            final(self).charged() == charge_after(old(self).charged(), key@.len() + 9, value@.len()),
            is_inserted(
                old(self).entries(),
                final(self).entries(),
                internal_key(key@, seq, value_type),
                value@,
            ),
    {
        let ghost before = slots(self.data);
        let tk = table_key(key, seq, value_type);
        let ghost kv = key_view(tk);
        table_insert(&mut self.data, tk, copy_bytes(value));
        self.charge(key.len(), 9, value.len());
        proof {
            let after = slots(self.data);
            let ik = internal_key(key@, seq, value_type);
            lemma_decode_encoded(key@, seq, value_type);
            lemma_key_for(ik);
            lemma_key_order(kv, key_for(ik));
            assert forall|k: Seq<u8>, v: Seq<u8>| #[trigger]
                holds_pair(self.entries(), k, v) == if k == ik {
                    v == value@
                } else {
                    holds_pair(slot_pairs(before), k, v)
                } by {
                lemma_holds_same(after, k, v);
                lemma_holds_same(before, k, v);
                if is_internal(k) {
                    lemma_key_for(k);
                    assert(holds_slot(after, key_for(k), v) == if key_for(k) == kv {
                        v == value@
                    } else {
                        holds_slot(before, key_for(k), v)
                    });
                }
            }
        }
    }

    /// Insert a key-value pair with the given sequence number.
    pub fn put(&mut self, key: &[u8], value: &[u8], seq: u64)
        requires
            old(self).wf(),
        ensures
            final(self).wf(),
            final(self).tombstones() == old(self).tombstones(),
            final(self).charged() == charge_after(old(self).charged(), key@.len() + 9, value@.len()),
            is_inserted(
                old(self).entries(),
                final(self).entries(),
                internal_key(key@, seq, VALUE_TYPE_VALUE),
                value@,
            ),
    {
        self.insert(key, seq, VALUE_TYPE_VALUE, value);
    }

    /// Insert a deletion tombstone for the given key.
    pub fn delete(&mut self, key: &[u8], seq: u64)
        requires
            old(self).wf(),
        ensures
            final(self).wf(),
            final(self).tombstones() == old(self).tombstones(),
            final(self).charged() == charge_after(old(self).charged(), key@.len() + 9, 0),
            is_inserted(
                old(self).entries(),
                final(self).entries(),
                internal_key(key@, seq, VALUE_TYPE_DELETION),
                Seq::empty(),
            ),
    {
        let none: Vec<u8> = Vec::new();
        assert(none@ =~= Seq::<u8>::empty());
        self.insert(key, seq, VALUE_TYPE_DELETION, none.as_slice());
    }

    /// Insert a merge operand for the given key. It is combined with an older
    /// base value, or other operands, when it is read.
    pub fn merge(&mut self, key: &[u8], operand: &[u8], seq: u64)
        requires
            old(self).wf(),
        ensures
            final(self).wf(),
            final(self).tombstones() == old(self).tombstones(),
            final(self).charged() == charge_after(
                old(self).charged(),
                key@.len() + 9,
                operand@.len(),
            ),
            is_inserted(
                old(self).entries(),
                final(self).entries(),
                internal_key(key@, seq, VALUE_TYPE_MERGE),
                operand@,
            ),
    {
        self.insert(key, seq, VALUE_TYPE_MERGE, operand);
    }

    /// Record a range tombstone: every user key in `[start, end)` is deleted
    /// as of `seq`.
    pub fn delete_range(&mut self, start: &[u8], end: &[u8], seq: u64)
        requires
            old(self).wf(),
        ensures
            final(self).wf(),
            final(self).entries() == old(self).entries(),
            final(self).tombstones().len() == old(self).tombstones().len() + 1,
            final(self).tombstones().drop_last() == old(self).tombstones(),
            final(self).tombstones().last()@ == (super::range_tombstone::TombstoneView {
                start: start@,
                end: end@,
                seq,
            }),
            final(self).charged() == charge_after(
                old(self).charged(),
                start@.len() + 8,
                end@.len(),
            ),
    {
        self.range_tombstones.push(RangeTombstone::new(copy_bytes(start), copy_bytes(end), seq));
        self.charge(start.len(), 8, end.len());
        assert(self.range_tombstones@.drop_last() =~= old(self).range_tombstones@);
    }

    /// Copies of every range tombstone held.
    pub fn clone_range_tombstones(&self) -> (r: Vec<RangeTombstone>)
        ensures
            r@.len() == self.tombstones().len(),
            forall|i: int| 0 <= i < r@.len() ==> (#[trigger] r@[i])@ == self.tombstones()[i]@,
    {
        copy_tombstones(self.range_tombstones.as_slice())
    }

    /// Largest sequence number of a range tombstone that covers `user_key`
    /// and is visible at `snapshot_seq`; `0` if there is none (real sequence
    /// numbers start at 1).
    pub fn covering_range_tombstone_seq(&self, user_key: &[u8], snapshot_seq: u64) -> (r: u64)
        ensures
            r == max_covering(self.tombstones(), user_key@, snapshot_seq),
    {
        max_covering_seq(self.range_tombstones.as_slice(), user_key, snapshot_seq)
    }

    /// The first entry at or after the search key of `(key, snapshot_seq)`,
    /// and where it stands.
    fn seek(&self, from: TableKey) -> (r: (Option<(TableKey, Vec<u8>)>, Ghost<int>))
        requires
            self.wf(),
        ensures
            0 <= r.1@ <= self.entries().len(),
            r.0 is Some <==> r.1@ < self.entries().len(),
            r.0 matches Some(e) ==> self.entries()[r.1@] == (key_bytes(key_view(e.0)), e.1@),
            forall|j: int|
                0 <= j < self.entries().len() ==> (j < r.1@ <==> ik_lt(
                    (#[trigger] self.entries()[j]).0,
                    key_bytes(key_view(from)),
                )),
    {
        let ghost fv = key_view(from);
        let r = table_first_from(&self.data, from);
        let ghost s = self.slots();
        let ghost e = r->Some_0;
        let ghost n: int = if r is Some {
            choose|i: int|
                0 <= i < s.len() && #[trigger] s[i] == (key_view(e.0), e.1@) && !key_lt(
                    s[i].0,
                    fv,
                ) && forall|j: int| 0 <= j < i ==> key_lt((#[trigger] s[j]).0, fv)
        } else {
            s.len() as int
        };
        proof {
            assert forall|j: int| 0 <= j < s.len() implies (j < n <==> ik_lt(
                (#[trigger] self.entries()[j]).0,
                key_bytes(fv),
            )) by {
                lemma_key_order(s[j].0, fv);
                if j > n {
                    assert(key_lt(s[n].0, s[j].0));
                    lemma_key_total(s[n].0, s[j].0, fv);
                }
            }
        }
        (r, Ghost(n))
    }

    /// Look up the newest point entry for `key` visible at `snapshot_seq`:
    /// its sequence number, and its value (`None` for a deletion).
    ///
    /// Range tombstones are ignored here; the caller compares their coverage
    /// across all sources.
    pub fn get(&self, key: &[u8], snapshot_seq: u64) -> (r: Option<(u64, Option<Vec<u8>>)>)
        requires
            self.wf(),
        ensures
            opt_found(r) == found(self.entries(), key@, snapshot_seq),
    {
        let from = table_key(key, snapshot_seq, VALUE_TYPE_DELETION);
        let ghost probe = internal_key(key@, snapshot_seq, VALUE_TYPE_DELETION);
        let (hit, Ghost(n)) = self.seek(from);
        proof {
            self.lemma_sorted();
            lemma_before_probe(self.entries(), key@, snapshot_seq, n);
        }
        match hit {
            None => None,
            Some((k, v)) => {
                proof {
                    lemma_decode_encoded(k.0@, !k.1, k.2);
                }
                if !bytes_eq(k.0.as_slice(), key) {
                    return None;
                }
                let seq: u64 = !k.1;
                if k.2 == VALUE_TYPE_DELETION {
                    Some((seq, None))
                } else {
                    Some((seq, Some(v)))
                }
            },
        }
    }

    /// Append the visible versions of `key`, newest first, up to and with the
    /// first that is not a merge operand. Returns whether there was such a
    /// one: whether a walk over several sources is done.
    pub fn collect_merge_chain(
        &self,
        key: &[u8],
        snapshot_seq: u64,
        out: &mut Vec<(u64, u8, Vec<u8>)>,
    ) -> (r: bool)
        requires
            self.wf(),
        ensures
            links(final(out)@) == links(old(out)@) + chain(self.entries(), key@, snapshot_seq),
            r == chain_ended(chain(self.entries(), key@, snapshot_seq)),
    {
        let ghost es = self.entries();
        let ghost whole = chain(es, key@, snapshot_seq);
        let ghost out0 = links(out@);
        proof {
            self.lemma_sorted();
        }
        let mut from = table_key(key, snapshot_seq, VALUE_TYPE_DELETION);
        let ghost mut seen: Seq<Link> = Seq::empty();
        let ghost mut at: int = 0;
        assert(es.skip(0) =~= es);
        proof {
            assert forall|j: int| 0 <= j < es.len() implies {
                &&& ik_lt((#[trigger] es[j]).0, key_bytes(key_view(from))) ==> !visible(
                    es[j],
                    key@,
                    snapshot_seq,
                )
                &&& !ik_lt(es[j].0, key_bytes(key_view(from))) ==> lex_le(key@, user_of(es[j].0))
                &&& !ik_lt(es[j].0, key_bytes(key_view(from))) && user_of(es[j].0) == key@
                    ==> visible(es[j], key@, snapshot_seq)
            } by {
                lemma_probe_parts(es[j].0, key@, snapshot_seq);
            }
        }
        assert(Seq::<Link>::empty() + whole =~= whole);
        assert(out0 + seen =~= out0);
        loop
            invariant
                self.wf(),
                es == self.entries(),
                sorted_entries(es),
                whole == chain(es, key@, snapshot_seq),
                0 <= at <= es.len(),
                links(out@) == out0 + seen,
                whole == seen + chain(es.skip(at), key@, snapshot_seq),
                forall|i: int| 0 <= i < seen.len() ==> (#[trigger] seen[i]).1 == VALUE_TYPE_MERGE,
                forall|j: int|
                    0 <= j < es.len() ==> (j < at ==> ik_lt(
                        (#[trigger] es[j]).0,
                        key_bytes(key_view(from)),
                    )),
                forall|j: int|
                    at <= j < es.len() && ik_lt((#[trigger] es[j]).0, key_bytes(key_view(from)))
                        ==> !visible(es[j], key@, snapshot_seq),
                out0 == links(old(out)@),
                forall|j: int|
                    0 <= j < es.len() && !ik_lt((#[trigger] es[j]).0, key_bytes(key_view(from)))
                        ==> lex_le(key@, user_of(es[j].0)),
                forall|j: int|
                    0 <= j < es.len() && user_of((#[trigger] es[j]).0) == key@ && !ik_lt(
                        es[j].0,
                        key_bytes(key_view(from)),
                    ) ==> visible(es[j], key@, snapshot_seq),
            decreases es.len() - at,
        {
            let (hit, Ghost(n)) = self.seek(from);
            proof {
                assert(at <= n) by {
                    if n < at {
                        assert(ik_lt(es[n].0, key_bytes(key_view(from))));
                    }
                }
                assert forall|i: int| 0 <= i < n - at implies !visible(
                    #[trigger] es.skip(at)[i],
                    key@,
                    snapshot_seq,
                ) by {
                    assert(es.skip(at)[i] == es[at + i]);
                    assert(ik_lt(es[at + i].0, key_bytes(key_view(from))));
                }
                lemma_skip_invisible(es.skip(at), key@, snapshot_seq, n - at);
                assert(es.skip(at).skip(n - at) =~= es.skip(n));
            }
            match hit {
                None => {
                    proof {
                        assert(es.skip(n).len() == 0);
                        assert(seen + Seq::<Link>::empty() =~= seen);
                    }
                    return false;
                },
                Some((k, v)) => {
                    proof {
                        lemma_decode_encoded(k.0@, !k.1, k.2);
                    }
                    if !bytes_eq(k.0.as_slice(), key) {
                        proof {
                            lemma_past_user(es, key@, snapshot_seq, n);
                            assert(seen + Seq::<Link>::empty() =~= seen);
                        }
                        return false;
                    }
                    let ghost link: Link = (!k.1, k.2, v@);
                    proof {
                        assert(!ik_lt(es[n].0, key_bytes(key_view(from))));
                        assert(visible(es[n], key@, snapshot_seq));
                        assert(es.skip(n)[0] == es[n]);
                        assert(es.skip(n).skip(1) =~= es.skip(n + 1));
                    }
                    let ghost out1 = links(out@);
                    out.push((!k.1, k.2, v));
                    assert(links(out@) =~= out1.push(link));
                    if k.2 != VALUE_TYPE_MERGE {
                        proof {
                            assert(links(out@) =~= out0 + (seen + seq![link]));
                        }
                        return true;
                    }
                    let after = next_key(&k);
                    proof {
                        let kb = key_bytes(key_view(k));
                        assert forall|x: Seq<u8>| is_internal(x) implies #[trigger] ik_lt(
                            x,
                            key_bytes(key_view(after)),
                        ) == (ik_lt(x, kb) || x == kb) by {
                            lemma_key_for(x);
                            lemma_key_order(key_for(x), key_view(after));
                            lemma_key_order(key_for(x), key_view(k));
                            assert(key_lt(key_for(x), key_view(after)) == (key_lt(
                                key_for(x),
                                key_view(k),
                            ) || key_for(x) == key_view(k)));
                        }
                        assert forall|j: int| n < j < es.len() implies lex_le(
                            key@,
                            user_of((#[trigger] es[j]).0),
                        ) by {
                            lemma_user_ascends(es, n, j);
                        }
                        assert(seen + (seq![link] + chain(es.skip(n + 1), key@, snapshot_seq))
                            =~= seen.push(link) + chain(es.skip(n + 1), key@, snapshot_seq));
                        assert(links(out@) =~= out0 + seen.push(link));
                        assert forall|j: int| 0 <= j < es.len() implies (j < n + 1 <==> ik_lt(
                            (#[trigger] es[j]).0,
                            key_bytes(key_view(after)),
                        )) by {
                            assert(is_internal(es[j].0));
                            assert(es[n].0 == kb);
                            lemma_internal_total_order(es[j].0, es[n].0, es[n].0);
                            if j < n {
                                assert(ik_lt(es[j].0, es[n].0));
                            } else if n < j {
                                assert(ik_lt(es[n].0, es[j].0));
                            }
                        }
                        seen = seen.push(link);
                        at = n + 1;
                    }
                    from = after;
                },
            }
        }
    }

    /// All entries in the order of their internal keys, with every version
    /// and tombstone.
    pub fn iter_internal(&self) -> (r: Vec<(Vec<u8>, Vec<u8>)>)
        ensures
            pairs(r@) == self.entries(),
    {
        let all = table_entries(&self.data);
        let mut r: Vec<(Vec<u8>, Vec<u8>)> = Vec::new();
        let mut i: usize = 0;
        while i < all.len()
            invariant
                i <= all@.len(),
                r@.len() == i,
                all@.len() == self.slots().len(),
                forall|j: int|
                    0 <= j < all@.len() ==> self.slots()[j] == (
                        key_view((#[trigger] all@[j]).0),
                        all@[j].1@,
                    ),
                forall|j: int|
                    0 <= j < i ==> ((#[trigger] r@[j]).0@, r@[j].1@) == self.entries()[j],
            decreases all@.len() - i,
        {
            let e = &all[i];
            r.push((bytes_of(&e.0), copy_bytes(e.1.as_slice())));
            assert(self.slots()[i as int] == (key_view(all@[i as int].0), all@[i as int].1@));
            i += 1;
        }
        assert(pairs(r@) =~= self.entries());
        r
    }

    /// How many raw entries have a user key in `[start, end)`, and the length
    /// of their keys and values. Every version and every tombstone counts.
    pub fn approximate_stats_for_range(&self, start: &[u8], end: &[u8]) -> (r: (u64, u64))
        requires
            self.wf(),
            self.entries().len() <= u64::MAX,
            range_size(self.entries(), start@, end@) <= u64::MAX,
        ensures
            r.0 == range_count(self.entries(), start@, end@),
            r.1 == range_size(self.entries(), start@, end@),
    {
        let ghost es = self.entries();
        proof {
            self.lemma_sorted();
        }
        if !bytes_lt(start, end) {
            proof {
                assert forall|i: int| 0 <= i < es.len() implies !in_user_range(
                    #[trigger] es[i],
                    start@,
                    end@,
                ) by {
                    lemma_lex_order(start@, user_of(es[i].0), end@);
                }
                lemma_range_tail(es, start@, end@, 0);
                assert(es.take(0) =~= Seq::<Pair>::empty());
            }
            return (0, 0);
        }
        let ghost hi = internal_key(end@, u64::MAX, VALUE_TYPE_DELETION);
        let mut from = table_key(start, u64::MAX, VALUE_TYPE_DELETION);
        let mut count: u64 = 0;
        let mut size: u64 = 0;
        let ghost mut at: int = 0;
        let ghost mut begun = false;
        assert(es.take(0) =~= Seq::<Pair>::empty());
        loop
            invariant
                self.wf(),
                es == self.entries(),
                sorted_entries(es),
                es.len() <= u64::MAX,
                range_size(es, start@, end@) <= u64::MAX,
                0 <= at <= es.len(),
                count == range_count(es.take(at), start@, end@),
                size == range_size(es.take(at), start@, end@),
                !begun ==> at == 0 && key_bytes(key_view(from)) == internal_key(
                    start@,
                    u64::MAX,
                    VALUE_TYPE_DELETION,
                ),
                begun ==> forall|j: int|
                    0 <= j < es.len() ==> (j < at <==> ik_lt(
                        (#[trigger] es[j]).0,
                        key_bytes(key_view(from)),
                    )),
                begun ==> forall|j: int|
                    at <= j < es.len() ==> lex_le(start@, user_of((#[trigger] es[j]).0)),
            ensures
                count == range_count(es, start@, end@),
                size == range_size(es, start@, end@),
            decreases
                    es.len() - at,
                    if begun {
                        0int
                    } else {
                        1int
                    },
        {
            let (hit, Ghost(n)) = self.seek(from);
            proof {
                if !begun {
                    lemma_from_user(es, start@, n);
                    assert forall|i: int| 0 <= i < n implies !in_user_range(
                        #[trigger] es.take(n)[i],
                        start@,
                        end@,
                    ) by {
                        lemma_lex_order(user_of(es[i].0), start@, user_of(es[i].0));
                    }
                    lemma_range_tail(es.take(n), start@, end@, 0);
                    assert(es.take(n).take(0) =~= es.take(0));
                    assert(es.take(0) =~= Seq::<Pair>::empty());
                } else {
                    assert(n == at) by {
                        if n < at {
                            assert(ik_lt(es[n].0, key_bytes(key_view(from))));
                        } else if at < n {
                            assert(ik_lt(es[at].0, key_bytes(key_view(from))));
                        }
                    }
                }
                lemma_range_prefix(es, start@, end@, n);
            }
            match hit {
                None => {
                    assert(es.take(n) =~= es);
                    break;
                },
                Some((k, v)) => {
                    proof {
                        lemma_decode_encoded(k.0@, !k.1, k.2);
                    }
                    if !bytes_lt(k.0.as_slice(), end) {
                        proof {
                            assert forall|i: int| n <= i < es.len() implies !in_user_range(
                                #[trigger] es[i],
                                start@,
                                end@,
                            ) by {
                                lemma_user_ascends(es, n, i);
                                lemma_lex_order(end@, user_of(es[n].0), user_of(es[i].0));
                                lemma_lex_order(user_of(es[i].0), end@, end@);
                                lemma_lex_order(user_of(es[n].0), end@, end@);
                            }
                            lemma_range_tail(es, start@, end@, n);
                        }
                        break;
                    }
                    proof {
                        assert(in_user_range(es[n], start@, end@));
                        lemma_range_prefix(es, start@, end@, n + 1);
                        assert(es[n].0.len() == k.0@.len() + 9);
                    }
                    count = count + 1;
                    size = size + k.0.len() as u64 + 9 + v.len() as u64;
                    let after = next_key(&k);
                    proof {
                        let kb = key_bytes(key_view(k));
                        assert forall|j: int| 0 <= j < es.len() implies (j < n + 1 <==> ik_lt(
                            (#[trigger] es[j]).0,
                            key_bytes(key_view(after)),
                        )) by {
                            assert(is_internal(es[j].0));
                            let x = es[j].0;
                            lemma_key_for(x);
                            lemma_key_order(key_for(x), key_view(after));
                            lemma_key_order(key_for(x), key_view(k));
                            assert(key_lt(key_for(x), key_view(after)) == (key_lt(
                                key_for(x),
                                key_view(k),
                            ) || key_for(x) == key_view(k)));
                            lemma_internal_total_order(es[j].0, es[n].0, es[n].0);
                            if j < n {
                                assert(ik_lt(es[j].0, es[n].0));
                            } else if n < j {
                                assert(ik_lt(es[n].0, es[j].0));
                            }
                        }
                        assert forall|j: int| n + 1 <= j < es.len() implies lex_le(
                            start@,
                            user_of((#[trigger] es[j]).0),
                        ) by {
                            lemma_user_ascends(es, n, j);
                            lemma_lex_order(start@, user_of(es[n].0), user_of(es[j].0));
                        }
                        at = n + 1;
                        begun = true;
                    }
                    from = after;
                },
            }
        }
        (count, size)
    }

    /// The first entry that the lower bound lets in.
    pub fn first_entry_from(&self, lower: KeyBound<'_>) -> (r: Option<(Vec<u8>, Vec<u8>)>)
        requires
            self.wf(),
            lower.ok(),
        ensures
            is_first_from(self.entries(), lower, opt_pair(r)),
    {
        let ghost es = self.entries();
        proof {
            self.lemma_sorted();
        }
        let from: TableKey = match lower {
            KeyBound::Included(b) => table_key_of(b),
            KeyBound::Excluded(b) => next_key(&table_key_of(b)),
            KeyBound::Unbounded => (Vec::new(), 0, 0),
        };
        proof {
            assert forall|j: int| 0 <= j < es.len() implies ik_lt(
                (#[trigger] es[j]).0,
                key_bytes(key_view(from)),
            ) == lower.shuts_below(es[j].0) by {
                assert(is_internal(es[j].0));
                let x = es[j].0;
                lemma_key_for(x);
                lemma_key_order(key_for(x), key_view(from));
                match lower {
                    KeyBound::Included(b) => {},
                    KeyBound::Excluded(b) => {
                        lemma_key_for(b@);
                        lemma_key_order(key_for(x), key_for(b@));
                    },
                    KeyBound::Unbounded => {
                        lemma_lex_order(user_of(x), key_view(from).0, user_of(x));
                    },
                }
            }
        }
        let (hit, Ghost(n)) = self.seek(from);
        proof {
            assert forall|j: int| 0 <= j < n implies lower.shuts_below((#[trigger] es[j]).0) by {
                assert(ik_lt(es[j].0, key_bytes(key_view(from))));
            }
            if n < es.len() {
                assert(!ik_lt(es[n].0, key_bytes(key_view(from))));
            }
        }
        match hit {
            None => None,
            Some((k, v)) => {
                assert(es[n] == (key_bytes(key_view(k)), v@));
                Some((bytes_of(&k), v))
            },
        }
    }

    /// The last entry that the upper bound lets in.
    pub fn last_entry_before(&self, upper: KeyBound<'_>) -> (r: Option<(Vec<u8>, Vec<u8>)>)
        requires
            self.wf(),
            upper.ok(),
        ensures
            is_last_before(self.entries(), upper, opt_pair(r)),
    {
        let ghost es = self.entries();
        let ghost s = self.slots();
        proof {
            self.lemma_sorted();
        }
        let below: TableKey = match upper {
            KeyBound::Included(b) => next_key(&table_key_of(b)),
            KeyBound::Excluded(b) => table_key_of(b),
            KeyBound::Unbounded => {
                let hit = table_back(&self.data);
                return match hit {
                    None => None,
                    Some((k, v)) => {
                        assert(es[es.len() - 1] == (key_bytes(key_view(k)), v@));
                        Some((bytes_of(&k), v))
                    },
                };
            },
        };
        let ghost bv = key_view(below);
        proof {
            assert forall|j: int| 0 <= j < s.len() implies key_lt((#[trigger] s[j]).0, bv)
                == !upper.shuts_above(es[j].0) by {
                assert(is_internal(es[j].0));
                match upper {
                    KeyBound::Included(b) => {
                        lemma_key_for(b@);
                        lemma_key_order(s[j].0, key_for(b@));
                        lemma_key_order(key_for(b@), s[j].0);
                        lemma_internal_total_order(es[j].0, b@, b@);
                        assert(key_lt(s[j].0, bv) == (key_lt(s[j].0, key_for(b@)) || s[j].0
                            == key_for(b@)));
                    },
                    KeyBound::Excluded(b) => {
                        lemma_key_for(b@);
                        lemma_key_order(s[j].0, bv);
                        lemma_internal_total_order(es[j].0, b@, b@);
                    },
                    KeyBound::Unbounded => {},
                }
            }
        }
        let hit = table_last_below(&self.data, below);
        match hit {
            None => {
                proof {
                    assert forall|j: int| 0 <= j < es.len() implies upper.shuts_above(
                        (#[trigger] es[j]).0,
                    ) by {
                        assert(!key_lt(s[j].0, bv));
                    }
                }
                None
            },
            Some((k, v)) => {
                proof {
                    let i = choose|i: int|
                        0 <= i < s.len() && #[trigger] s[i] == (key_view(k), v@) && key_lt(
                            s[i].0,
                            bv,
                        ) && forall|j: int|
                            i < j < s.len() ==> !key_lt((#[trigger] s[j]).0, bv);
                    assert(es[i] == (key_bytes(key_view(k)), v@));
                    assert forall|j: int| i < j < es.len() implies upper.shuts_above(
                        (#[trigger] es[j]).0,
                    ) by {
                        assert(!key_lt(s[j].0, bv));
                    }
                }
                Some((bytes_of(&k), v))
            },
        }
    }

    /// The bytes charged so far.
    pub fn approximate_size(&self) -> (r: usize)
        ensures
            r == self.charged(),
    {
        self.approximate_size
    }

    /// Whether there is no point entry.
    pub fn is_empty(&self) -> (r: bool)
        ensures
            r == (self.entries().len() == 0),
    {
        table_is_empty(&self.data)
    }
}

/// What a lookup's result says.
pub open spec fn opt_found(r: Option<(u64, Option<Vec<u8>>)>) -> Option<(u64, Option<Seq<u8>>)> {
    match r {
        Some((seq, Some(v))) => Some((seq, Some(v@))),
        Some((seq, None)) => Some((seq, None)),
        None => None,
    }
}

/// What an optional pair says.
pub open spec fn opt_pair(r: Option<(Vec<u8>, Vec<u8>)>) -> Option<Pair> {
    match r {
        Some((k, v)) => Some((k@, v@)),
        None => None,
    }
}

/// What a list of links says.
pub open spec fn links(v: Seq<(u64, u8, Vec<u8>)>) -> Seq<Link> {
    v.map_values(|e: (u64, u8, Vec<u8>)| (e.0, e.1, e.2@))
}

/// `r` is the first entry that the lower bound lets in.
pub open spec fn is_first_from(es: Seq<Pair>, lower: KeyBound<'_>, r: Option<Pair>) -> bool {
    match r {
        Some(e) => exists|i: int|
            0 <= i < es.len() && #[trigger] es[i] == e && !lower.shuts_below(e.0) && forall|j: int|
                0 <= j < i ==> lower.shuts_below((#[trigger] es[j]).0),
        None => forall|j: int| 0 <= j < es.len() ==> lower.shuts_below((#[trigger] es[j]).0),
    }
}

/// `r` is the last entry that the upper bound lets in.
pub open spec fn is_last_before(es: Seq<Pair>, upper: KeyBound<'_>, r: Option<Pair>) -> bool {
    match r {
        Some(e) => exists|i: int|
            0 <= i < es.len() && #[trigger] es[i] == e && !upper.shuts_above(e.0) && forall|j: int|
                i < j < es.len() ==> upper.shuts_above((#[trigger] es[j]).0),
        None => forall|j: int| 0 <= j < es.len() ==> upper.shuts_above((#[trigger] es[j]).0),
    }
}

// ── Order of a sorted run ────────────────────────────────────────

/// Later entries have no smaller user keys.
pub proof fn lemma_user_ascends(es: Seq<Pair>, i: int, j: int)
    requires
        sorted_entries(es),
        0 <= i <= j < es.len(),
    ensures
        lex_le(user_of(es[i].0), user_of(es[j].0)),
{
    if i < j {
        assert(ik_lt(es[i].0, es[j].0));
        super::internal_key::lemma_internal_order(es[i].0, es[j].0);
    }
}

/// How the search key of a user key and a snapshot parts an internal key from
/// the others.
pub proof fn lemma_probe_parts(k: Seq<u8>, key: Seq<u8>, snapshot_seq: u64)
    requires
        is_internal(k),
    ensures
        ({
            let probe = internal_key(key, snapshot_seq, VALUE_TYPE_DELETION);
            &&& ik_lt(k, probe) ==> !(user_of(k) == key && seq_of(k) <= snapshot_seq)
            &&& !ik_lt(k, probe) ==> lex_le(key, user_of(k))
            &&& !ik_lt(k, probe) && user_of(k) == key ==> seq_of(k) <= snapshot_seq
        }),
{
    let probe = internal_key(key, snapshot_seq, VALUE_TYPE_DELETION);
    lemma_decode_encoded(key, snapshot_seq, VALUE_TYPE_DELETION);
    super::internal_key::lemma_internal_order(k, probe);
    lemma_internal_total_order(k, probe, probe);
    lemma_internal_total_order(probe, k, probe);
    lemma_lex_order(user_of(k), key, key);
    if user_of(k) == key {
        super::internal_key::lemma_lookup_key_parts_versions(key, snapshot_seq, k);
    }
}

/// The entries before the search key of a user key and a snapshot are not
/// visible; if the entry there is of another user key, none is.
pub proof fn lemma_before_probe(es: Seq<Pair>, key: Seq<u8>, snapshot_seq: u64, n: int)
    requires
        sorted_entries(es),
        0 <= n <= es.len(),
        forall|j: int|
            0 <= j < es.len() ==> (j < n <==> ik_lt(
                (#[trigger] es[j]).0,
                internal_key(key, snapshot_seq, VALUE_TYPE_DELETION),
            )),
    ensures
        newest(es, key, snapshot_seq) == if n < es.len() && user_of(es[n].0) == key {
            Some(es[n])
        } else {
            None
        },
        n < es.len() && user_of(es[n].0) == key ==> seq_of(es[n].0) <= snapshot_seq,
{
    let probe = internal_key(key, snapshot_seq, VALUE_TYPE_DELETION);
    lemma_decode_encoded(key, snapshot_seq, VALUE_TYPE_DELETION);
    assert forall|i: int| 0 <= i < n implies !visible(#[trigger] es[i], key, snapshot_seq) by {
        assert(is_internal(es[i].0));
        if user_of(es[i].0) == key {
            super::internal_key::lemma_lookup_key_parts_versions(key, snapshot_seq, es[i].0);
            lemma_internal_total_order(es[i].0, probe, probe);
            lemma_internal_total_order(probe, es[i].0, probe);
        }
    }
    lemma_skip_invisible(es, key, snapshot_seq, n);
    if n < es.len() {
        assert(es.skip(n)[0] == es[n]);
        assert(is_internal(es[n].0));
        assert(!ik_lt(es[n].0, probe));
        lemma_internal_total_order(es[n].0, probe, probe);
        if user_of(es[n].0) == key {
            super::internal_key::lemma_lookup_key_parts_versions(key, snapshot_seq, es[n].0);
        } else {
            lemma_past_user(es, key, snapshot_seq, n);
        }
    } else {
        assert(es.skip(n).len() == 0);
    }
}

/// From an entry on that comes after the search key and is of another user
/// key, no entry is visible.
pub proof fn lemma_past_user(es: Seq<Pair>, key: Seq<u8>, snapshot_seq: u64, n: int)
    requires
        sorted_entries(es),
        0 <= n < es.len(),
        user_of(es[n].0) != key,
        lex_le(key, user_of(es[n].0)),
    ensures
        newest(es.skip(n), key, snapshot_seq) is None,
        chain(es.skip(n), key, snapshot_seq) == Seq::<Link>::empty(),
{
    assert forall|i: int| 0 <= i < es.skip(n).len() implies !visible(
        #[trigger] es.skip(n)[i],
        key,
        snapshot_seq,
    ) by {
        assert(es.skip(n)[i] == es[n + i]);
        lemma_user_ascends(es, n, n + i);
        lemma_lex_order(key, user_of(es[n].0), user_of(es[n + i].0));
        lemma_lex_order(key, user_of(es[n + i].0), key);
    }
    lemma_none_visible(es.skip(n), key, snapshot_seq);
}

/// The entries before the least internal key of `start` have smaller user
/// keys; the others do not.
proof fn lemma_from_user(es: Seq<Pair>, start: Seq<u8>, n: int)
    requires
        sorted_entries(es),
        0 <= n <= es.len(),
        forall|j: int|
            0 <= j < es.len() ==> (j < n <==> ik_lt(
                (#[trigger] es[j]).0,
                internal_key(start, u64::MAX, VALUE_TYPE_DELETION),
            )),
    ensures
        forall|j: int| 0 <= j < n ==> lex_lt(user_of((#[trigger] es[j]).0), start),
        forall|j: int| n <= j < es.len() ==> lex_le(start, user_of((#[trigger] es[j]).0)),
{
    let probe = internal_key(start, u64::MAX, VALUE_TYPE_DELETION);
    lemma_decode_encoded(start, u64::MAX, VALUE_TYPE_DELETION);
    assert forall|j: int| 0 <= j < es.len() implies (if j < n {
        lex_lt(user_of((#[trigger] es[j]).0), start)
    } else {
        lex_le(start, user_of(es[j].0))
    }) by {
        assert(is_internal(es[j].0));
        super::internal_key::lemma_internal_order(es[j].0, probe);
        lemma_lex_order(user_of(es[j].0), start, start);
    }
}

/// The statistics of a range count the entries whose user key is at or after
/// its start and before its end, and add up the bytes of their keys and values.
pub proof fn lemma_stats_are_of_the_range(es: Seq<Pair>, start: Seq<u8>, end: Seq<u8>)
    ensures
        ({
            let within = es.filter(
                |p: Pair| !lex_lt(user_of(p.0), start) && lex_lt(user_of(p.0), end),
            );
            &&& range_count(es, start, end) == within.len()
            &&& range_size(es, start, end) == within.fold_left(
                0int,
                |sum: int, p: Pair| sum + p.0.len() + p.1.len(),
            )
        }),
    decreases es.len(),
{
    reveal(Seq::filter);
    let f = |p: Pair| !lex_lt(user_of(p.0), start) && lex_lt(user_of(p.0), end);
    let g = |sum: int, p: Pair| sum + p.0.len() + p.1.len();
    if es.len() > 0 {
        let front = es.drop_last();
        lemma_stats_are_of_the_range(front, start, end);
        let u = user_of(es.last().0);
        lemma_lex_order(start, u, start);
        lemma_lex_order(u, start, u);
        let w = front.filter(f);
        if f(es.last()) {
            assert(w.push(es.last()).drop_last() =~= w);
        }
    }
}

} // verus!
