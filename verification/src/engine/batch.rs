//! Batches of writes.

use super::internal_key::internal_key;
use super::internal_key::VALUE_TYPE_DELETION;
use super::internal_key::VALUE_TYPE_MERGE;
use super::internal_key::VALUE_TYPE_VALUE;
use super::memtable::charge_after;
use super::memtable::MemTable;
use super::range_tombstone::TombstoneView;
use super::versions::is_inserted;
use crate::bytes::lex_lt;
use crate::error::Error;
use crate::error::ErrorKind;
use vstd::prelude::*;

verus! {

/// One write of a batch.
pub enum WriteBatchOp {
    Put { key: Vec<u8>, value: Vec<u8> },
    Delete { key: Vec<u8> },
    /// Delete every key in `[start, end)`.
    DeleteRange { start: Vec<u8>, end: Vec<u8> },
    Merge { key: Vec<u8>, operand: Vec<u8> },
}

/// What a write says.
#[verifier::ext_equal]
pub enum OpView {
    Put { key: Seq<u8>, value: Seq<u8> },
    Delete { key: Seq<u8> },
    DeleteRange { start: Seq<u8>, end: Seq<u8> },
    Merge { key: Seq<u8>, operand: Seq<u8> },
}

impl View for WriteBatchOp {
    type V = OpView;

    open spec fn view(&self) -> OpView {
        match self {
            WriteBatchOp::Put { key, value } => OpView::Put { key: key@, value: value@ },
            WriteBatchOp::Delete { key } => OpView::Delete { key: key@ },
            WriteBatchOp::DeleteRange { start, end } => OpView::DeleteRange {
                start: start@,
                end: end@,
            },
            WriteBatchOp::Merge { key, operand } => OpView::Merge { key: key@, operand: operand@ },
        }
    }
}

/// What the writes of a batch say.
pub open spec fn op_views(ops: Seq<WriteBatchOp>) -> Seq<OpView> {
    ops.map_values(|op: WriteBatchOp| op@)
}

// ── Grouped writes ───────────────────────────────────────────────

/// The writes of a group: the point writes, in which no value means a
/// deletion, then the range deletions, then the merges.
pub open spec fn grouped(
    point_ops: Seq<(Vec<u8>, Option<Vec<u8>>)>,
    range_deletes: Seq<(Vec<u8>, Vec<u8>)>,
    merges: Seq<(Vec<u8>, Vec<u8>)>,
) -> Seq<OpView> {
    point_ops.map_values(|p: (Vec<u8>, Option<Vec<u8>>)| point_view(p)) + range_deletes.map_values(
        |p: (Vec<u8>, Vec<u8>)| OpView::DeleteRange { start: p.0@, end: p.1@ },
    ) + merges.map_values(|p: (Vec<u8>, Vec<u8>)| OpView::Merge { key: p.0@, operand: p.1@ })
}

/// What a point write says.
pub open spec fn point_view(p: (Vec<u8>, Option<Vec<u8>>)) -> OpView {
    match p.1 {
        Some(value) => OpView::Put { key: p.0@, value: value@ },
        None => OpView::Delete { key: p.0@ },
    }
}

/// The keys of the point writes ascend, so that none occurs twice.
pub open spec fn points_ascend(point_ops: Seq<(Vec<u8>, Option<Vec<u8>>)>) -> bool {
    forall|i: int, j: int|
        0 <= i < j < point_ops.len() ==> lex_lt(
            (#[trigger] point_ops[i]).0@,
            (#[trigger] point_ops[j]).0@,
        )
}

/// A batch of a group of writes that does not keep the order of its calls.
pub fn grouped_batch_ops(
    point_ops: Vec<(Vec<u8>, Option<Vec<u8>>)>,
    range_deletes: Vec<(Vec<u8>, Vec<u8>)>,
    merges: Vec<(Vec<u8>, Vec<u8>)>,
) -> (r: Vec<WriteBatchOp>)
    requires
        points_ascend(point_ops@),
    ensures
        op_views(r@) == grouped(point_ops@, range_deletes@, merges@),
{
    let ghost a = point_ops@.map_values(|p: (Vec<u8>, Option<Vec<u8>>)| point_view(p));
    let ghost b = range_deletes@.map_values(
        |p: (Vec<u8>, Vec<u8>)| OpView::DeleteRange { start: p.0@, end: p.1@ },
    );
    let ghost c = merges@.map_values(
        |p: (Vec<u8>, Vec<u8>)| OpView::Merge { key: p.0@, operand: p.1@ },
    );
    let mut ops: Vec<WriteBatchOp> = Vec::new();
    assert(op_views(ops@) =~= a.take(0));
    for p in it: point_ops
        invariant
            it.seq() == point_ops@,
            a == point_ops@.map_values(|p: (Vec<u8>, Option<Vec<u8>>)| point_view(p)),
            op_views(ops@) == a.take(it.index() as int),
    {
        let ghost i = it.index() as int;
        let ghost before = op_views(ops@);
        assert(a[i] == point_view(p));
        let (key, value) = p;
        match value {
            Some(value) => {
                ops.push(WriteBatchOp::Put { key, value });
            },
            None => {
                ops.push(WriteBatchOp::Delete { key });
            },
        }
        assert(op_views(ops@) =~= before.push(a[i]));
        assert(a.take(i + 1) =~= a.take(i).push(a[i]));
    }
    assert(a.take(a.len() as int) =~= a);
    assert(a + b.take(0) =~= a);
    for p in it: range_deletes
        invariant
            it.seq() == range_deletes@,
            b == range_deletes@.map_values(
                |p: (Vec<u8>, Vec<u8>)| OpView::DeleteRange { start: p.0@, end: p.1@ },
            ),
            op_views(ops@) == a + b.take(it.index() as int),
    {
        let ghost i = it.index() as int;
        let ghost before = op_views(ops@);
        let (start, end) = p;
        ops.push(WriteBatchOp::DeleteRange { start, end });
        assert(op_views(ops@) =~= before.push(b[i]));
        assert(before.push(b[i]) =~= a + b.take(i + 1));
    }
    assert(b.take(b.len() as int) =~= b);
    assert(a + b + c.take(0) =~= a + b);
    for p in it: merges
        invariant
            it.seq() == merges@,
            c == merges@.map_values(
                |p: (Vec<u8>, Vec<u8>)| OpView::Merge { key: p.0@, operand: p.1@ },
            ),
            op_views(ops@) == a + b + c.take(it.index() as int),
    {
        let ghost i = it.index() as int;
        let ghost before = op_views(ops@);
        let (key, operand) = p;
        ops.push(WriteBatchOp::Merge { key, operand });
        assert(op_views(ops@) =~= before.push(c[i]));
        assert(before.push(c[i]) =~= a + b + c.take(i + 1));
    }
    assert(c.take(c.len() as int) =~= c);
    ops
}

// ── Sizes ────────────────────────────────────────────────────────

/// Bytes that the id of a column family takes in front of a key.
pub const FAMILY_PREFIX_LEN: usize = 4;

/// How long keys and values may be.
#[derive(Debug, Clone, Copy)]
pub struct SizeLimits {
    /// Longest key, without the id of its column family.
    pub max_key_size: usize,
    pub max_value_size: usize,
}

impl SizeLimits {
    /// The key, which starts with the id of its column family, is not too long.
    pub open spec fn key_fits(self, key: Seq<u8>) -> bool {
        key.len() <= self.max_key_size + FAMILY_PREFIX_LEN
    }

    /// The value is not too long.
    pub open spec fn value_fits(self, value: Seq<u8>) -> bool {
        value.len() <= self.max_value_size
    }

    /// The keys and values of a write are not too long.
    pub open spec fn op_fits(self, op: OpView) -> bool {
        match op {
            OpView::Put { key, value } => self.key_fits(key) && self.value_fits(value),
            OpView::Delete { key } => self.key_fits(key),
            OpView::DeleteRange { start, end } => self.key_fits(start) && self.key_fits(end),
            OpView::Merge { key, operand } => self.key_fits(key) && self.value_fits(operand),
        }
    }

    /// Check a key, which starts with the id of its column family.
    pub fn validate_prefixed_key_size(&self, key: &[u8]) -> (r: Result<(), Error>)
        ensures
            r is Ok <==> self.key_fits(key@),
            r matches Err(e) ==> e.kind == ErrorKind::InvalidInput,
    {
        let user_key_len: usize = key.len().saturating_sub(FAMILY_PREFIX_LEN);
        if user_key_len <= self.max_key_size {
            Ok(())
        } else {
            Err(Error::new(ErrorKind::InvalidInput, "key length exceeds configured max_key_size"))
        }
    }

    /// Check a value.
    pub fn validate_value_size(&self, value: &[u8]) -> (r: Result<(), Error>)
        ensures
            r is Ok <==> self.value_fits(value@),
            r matches Err(e) ==> e.kind == ErrorKind::InvalidInput,
    {
        if value.len() <= self.max_value_size {
            Ok(())
        } else {
            Err(
                Error::new(
                    ErrorKind::InvalidInput,
                    "value length exceeds configured max_value_size",
                ),
            )
        }
    }

    fn validate_op(&self, op: &WriteBatchOp) -> (r: Result<(), Error>)
        ensures
            r is Ok <==> self.op_fits(op@),
            r matches Err(e) ==> e.kind == ErrorKind::InvalidInput,
    {
        match op {
            WriteBatchOp::Put { key, value } => {
                match self.validate_prefixed_key_size(key.as_slice()) {
                    Ok(()) => self.validate_value_size(value.as_slice()),
                    Err(e) => Err(e),
                }
            },
            WriteBatchOp::Delete { key } => self.validate_prefixed_key_size(key.as_slice()),
            WriteBatchOp::DeleteRange { start, end } => {
                match self.validate_prefixed_key_size(start.as_slice()) {
                    Ok(()) => self.validate_prefixed_key_size(end.as_slice()),
                    Err(e) => Err(e),
                }
            },
            WriteBatchOp::Merge { key, operand } => {
                match self.validate_prefixed_key_size(key.as_slice()) {
                    Ok(()) => self.validate_value_size(operand.as_slice()),
                    Err(e) => Err(e),
                }
            },
        }
    }

    /// Check all writes of a batch.
    pub fn validate_ops_sizes(&self, ops: &Vec<WriteBatchOp>) -> (r: Result<(), Error>)
        ensures
            r is Ok <==> forall|i: int| 0 <= i < ops@.len() ==> self.op_fits((#[trigger] ops@[i])@),
            r matches Err(e) ==> e.kind == ErrorKind::InvalidInput,
    {
        let mut i: usize = 0;
        while i < ops.len()
            invariant
                i <= ops@.len(),
                forall|j: int| 0 <= j < i ==> self.op_fits((#[trigger] ops@[j])@),
            decreases ops@.len() - i,
        {
            match self.validate_op(&ops[i]) {
                Ok(()) => {},
                Err(e) => return Err(e),
            }
            i += 1;
        }
        Ok(())
    }
}

/// What a write counts for in the statistics of the log.
pub open spec fn op_wal_bytes(op: OpView) -> nat {
    match op {
        OpView::Put { key, value } => key.len() + value.len() + 8,
        OpView::Delete { key } => key.len() + 8,
        OpView::DeleteRange { start, end } => start.len() + end.len() + 8,
        OpView::Merge { key, operand } => key.len() + operand.len() + 8,
    }
}

/// What a write counts for in the statistics of the log.
pub fn batch_op_wal_bytes(op: &WriteBatchOp) -> (r: u64)
    requires
        op_wal_bytes(op@) <= u64::MAX,
    ensures
        r == op_wal_bytes(op@),
{
    match op {
        WriteBatchOp::Put { key, value } => key.len() as u64 + value.len() as u64 + 8,
        WriteBatchOp::Delete { key } => key.len() as u64 + 8,
        WriteBatchOp::DeleteRange { start, end } => start.len() as u64 + end.len() as u64 + 8,
        WriteBatchOp::Merge { key, operand } => key.len() as u64 + operand.len() as u64 + 8,
    }
}

// ── Applying ─────────────────────────────────────────────────────

/// What a write does to a memtable when it has the sequence number `seq`.
pub open spec fn wrote(m0: MemTable, m1: MemTable, op: OpView, seq: u64) -> bool {
    match op {
        OpView::Put { key, value } => wrote_entry(m0, m1, key, seq, VALUE_TYPE_VALUE, value),
        OpView::Delete { key } => wrote_entry(m0, m1, key, seq, VALUE_TYPE_DELETION, Seq::empty()),
        OpView::Merge { key, operand } => wrote_entry(m0, m1, key, seq, VALUE_TYPE_MERGE, operand),
        OpView::DeleteRange { start, end } => {
            &&& m1.wf()
            &&& m1.entries() == m0.entries()
            &&& m1.tombstones().len() == m0.tombstones().len() + 1
            &&& m1.tombstones().drop_last() == m0.tombstones()
            &&& m1.tombstones().last()@ == (TombstoneView { start, end, seq })
            &&& m1.charged() == charge_after(m0.charged(), start.len() + 8, end.len())
        },
    }
}

/// What an entry does to a memtable.
pub open spec fn wrote_entry(
    m0: MemTable,
    m1: MemTable,
    key: Seq<u8>,
    seq: u64,
    value_type: u8,
    value: Seq<u8>,
) -> bool {
    &&& m1.wf()
    &&& m1.tombstones() == m0.tombstones()
    &&& is_inserted(m0.entries(), m1.entries(), internal_key(key, seq, value_type), value)
    &&& m1.charged() == charge_after(m0.charged(), key.len() + 9, value.len())
}

/// Apply one write to a memtable.
pub fn apply_batch_op_to_memtable(memtable: &mut MemTable, op: &WriteBatchOp, seq: u64)
    requires
        old(memtable).wf(),
    ensures
        final(memtable).wf(),
        wrote(*old(memtable), *final(memtable), op@, seq),
{
    match op {
        WriteBatchOp::Put { key, value } => {
            memtable.put(key.as_slice(), value.as_slice(), seq);
        },
        WriteBatchOp::Delete { key } => {
            memtable.delete(key.as_slice(), seq);
        },
        WriteBatchOp::DeleteRange { start, end } => {
            memtable.delete_range(start.as_slice(), end.as_slice(), seq);
        },
        WriteBatchOp::Merge { key, operand } => {
            memtable.merge(key.as_slice(), operand.as_slice(), seq);
        },
    }
}

/// `ms` is a memtable before the first write, and after each of the writes,
/// which have consecutive sequence numbers from `base` on.
pub open spec fn is_history(ms: Seq<MemTable>, ops: Seq<OpView>, base: u64) -> bool {
    &&& ms.len() == ops.len() + 1
    &&& forall|i: int|
        #![trigger ops[i]]
        0 <= i < ops.len() ==> wrote(ms[i], ms[i + 1], ops[i], (base + i) as u64)
}

/// What a batch does to a memtable.
pub open spec fn wrote_all(m0: MemTable, m1: MemTable, ops: Seq<OpView>, base: u64) -> bool {
    exists|ms: Seq<MemTable>| #[trigger]
        is_history(ms, ops, base) && ms[0] == m0 && ms[ops.len() as int] == m1
}

/// Apply the writes of a batch, in their order, with consecutive sequence
/// numbers.
pub fn apply_ops(memtable: &mut MemTable, ops: &Vec<WriteBatchOp>, base_seq: u64)
    requires
        old(memtable).wf(),
        base_seq + ops@.len() <= u64::MAX + 1,
    ensures
        final(memtable).wf(),
        wrote_all(*old(memtable), *final(memtable), op_views(ops@), base_seq),
{
    let ghost all = op_views(ops@);
    let ghost mut ms: Seq<MemTable> = seq![*memtable];
    let mut i: usize = 0;
    while i < ops.len()
        invariant
            i <= ops@.len(),
            base_seq + ops@.len() <= u64::MAX + 1,
            all == op_views(ops@),
            memtable.wf(),
            ms.len() == i + 1,
            ms[0] == *old(memtable),
            ms[i as int] == *memtable,
            forall|j: int|
                #![trigger all[j]]
                0 <= j < i ==> wrote(ms[j], ms[j + 1], all[j], (base_seq + j) as u64),
        decreases ops@.len() - i,
    {
        let ghost before = ms;
        apply_batch_op_to_memtable(memtable, &ops[i], base_seq + i as u64);
        proof {
            ms = ms.push(*memtable);
            assert forall|j: int|
                #![trigger all[j]]
                0 <= j < i + 1 implies wrote(ms[j], ms[j + 1], all[j], (base_seq + j) as u64) by {
                if j < i {
                    assert(ms[j] == before[j] && ms[j + 1] == before[j + 1]);
                }
            }
        }
        i += 1;
    }
    assert(is_history(ms, all, base_seq));
}

// ── What a batch costs ───────────────────────────────────────────

/// The bytes that a write adds to a memtable: the key with its trailer, and
/// what comes with it.
pub open spec fn op_bytes(op: OpView) -> nat {
    match op {
        OpView::Put { key, value } => key.len() + 8 + 1 + value.len(),
        OpView::Delete { key } => key.len() + 8 + 1,
        OpView::Merge { key, operand } => key.len() + 8 + 1 + operand.len(),
        OpView::DeleteRange { start, end } => start.len() + 8 + end.len(),
    }
}

/// The bytes that writes add, together.
pub open spec fn batch_bytes(ops: Seq<OpView>) -> int {
    ops.fold_left(0int, |sum: int, op: OpView| sum + op_bytes(op))
}

/// A memtable is charged for every write of a batch, as long as the counter
/// lasts.
pub proof fn lemma_batch_is_charged(m0: MemTable, m1: MemTable, ops: Seq<OpView>, base: u64)
    requires
        wrote_all(m0, m1, ops, base),
        m0.charged() + batch_bytes(ops) <= usize::MAX,
    ensures
        m1.charged() == m0.charged() + batch_bytes(ops),
{
    let ms = choose|ms: Seq<MemTable>| #[trigger]
        is_history(ms, ops, base) && ms[0] == m0 && ms[ops.len() as int] == m1;
    lemma_history_is_charged(ms, ops, base, ops.len() as int);
    assert(ops.take(ops.len() as int) =~= ops);
}

proof fn lemma_bytes_grow(ops: Seq<OpView>, n: int)
    requires
        0 <= n <= ops.len(),
    ensures
        0 <= batch_bytes(ops.take(n)) <= batch_bytes(ops),
        n < ops.len() ==> batch_bytes(ops.take(n + 1)) == batch_bytes(ops.take(n)) + op_bytes(
            ops[n],
        ),
    decreases ops.len() - n, n,
{
    if n < ops.len() {
        lemma_bytes_grow(ops, n + 1);
        assert(ops.take(n + 1).drop_last() =~= ops.take(n));
        assert(ops.take(n + 1).last() == ops[n]);
    } else {
        assert(ops.take(n) =~= ops);
    }
    lemma_bytes_not_negative(ops.take(n));
}

proof fn lemma_bytes_not_negative(ops: Seq<OpView>)
    ensures
        batch_bytes(ops) >= 0,
    decreases ops.len(),
{
    if ops.len() > 0 {
        lemma_bytes_not_negative(ops.drop_last());
    }
}

proof fn lemma_history_is_charged(ms: Seq<MemTable>, ops: Seq<OpView>, base: u64, n: int)
    requires
        is_history(ms, ops, base),
        0 <= n <= ops.len(),
        ms[0].charged() + batch_bytes(ops) <= usize::MAX,
    ensures
        ms[n].charged() == ms[0].charged() + batch_bytes(ops.take(n)),
    decreases n,
{
    if n > 0 {
        lemma_history_is_charged(ms, ops, base, n - 1);
        lemma_bytes_grow(ops, n - 1);
        lemma_bytes_grow(ops, n);
        let op = ops[n - 1];
        assert(wrote(ms[n - 1], ms[n - 1 + 1], op, (base + (n - 1)) as u64));
        vstd::arithmetic::div_mod::lemma_small_mod(
            (ms[n - 1].charged() + op_bytes(op)) as nat,
            (usize::MAX + 1) as nat,
        );
    } else {
        assert(ops.take(0) =~= Seq::<OpView>::empty());
    }
}

/// A group of writes loses none, and keeps those of one kind in their order: a
/// point write with a value puts it and one without deletes, ranges are deleted
/// after all point writes, and operands come last, so that they are layered on
/// what the group leaves.
pub proof fn lemma_groups_keep_their_writes(
    point_ops: Seq<(Vec<u8>, Option<Vec<u8>>)>,
    range_deletes: Seq<(Vec<u8>, Vec<u8>)>,
    merges: Seq<(Vec<u8>, Vec<u8>)>,
)
    ensures
        ({
            let g = grouped(point_ops, range_deletes, merges);
            let (n, m) = (point_ops.len() as int, range_deletes.len() as int);
            &&& g.len() == n + m + merges.len()
            &&& forall|i: int|
                0 <= i < n ==> match point_ops[i].1 {
                    Some(v) => #[trigger] g[i] == (OpView::Put {
                        key: point_ops[i].0@,
                        value: v@,
                    }),
                    None => g[i] == (OpView::Delete { key: point_ops[i].0@ }),
                }
            &&& forall|i: int|
                n <= i < n + m ==> #[trigger] g[i] == (OpView::DeleteRange {
                    start: range_deletes[i - n].0@,
                    end: range_deletes[i - n].1@,
                })
            &&& forall|i: int|
                n + m <= i < g.len() ==> #[trigger] g[i] == (OpView::Merge {
                    key: merges[i - n - m].0@,
                    operand: merges[i - n - m].1@,
                })
        }),
{
}

/// The keys that a write names.
pub open spec fn keys_of(op: OpView) -> Seq<Seq<u8>> {
    match op {
        OpView::Put { key, value } => seq![key],
        OpView::Delete { key } => seq![key],
        OpView::Merge { key, operand } => seq![key],
        OpView::DeleteRange { start, end } => seq![start, end],
    }
}

/// How long the value or operand is that a write brings.
pub open spec fn payload_of(op: OpView) -> nat {
    match op {
        OpView::Put { key, value } => value.len(),
        OpView::Merge { key, operand } => operand.len(),
        _ => 0,
    }
}

/// A write fits where each of its keys, without the id of its column family,
/// and what it brings are within their limits.
pub proof fn lemma_fits_within_the_limits(limits: SizeLimits, op: OpView)
    ensures
        limits.op_fits(op) <==> payload_of(op) <= limits.max_value_size && forall|i: int|
            0 <= i < keys_of(op).len() ==> (#[trigger] keys_of(op)[i]).len() - 4
                <= limits.max_key_size,
{
    let keys = keys_of(op);
    assert(keys[0].len() >= 0);
    match op {
        OpView::Put { key, value } => {
            assert(keys[0] == key);
        },
        OpView::Delete { key } => {
            assert(keys[0] == key);
        },
        OpView::Merge { key, operand } => {
            assert(keys[0] == key);
        },
        OpView::DeleteRange { start, end } => {
            assert(keys[0] == start && keys[1] == end);
        },
    }
}

/// A write counts in the statistics of the log with its keys, with what it
/// brings, and with its sequence number.
pub proof fn lemma_log_bytes_are_those_of_the_write(op: OpView)
    ensures
        op_wal_bytes(op) == keys_of(op).fold_left(0int, |sum: int, k: Seq<u8>| sum + k.len())
            + payload_of(op) + 8,
{
    let keys = keys_of(op);
    reveal_with_fuel(Seq::fold_left, 3);
    assert(keys.drop_last().len() == keys.len() - 1);
    assert(keys.last() == keys[keys.len() - 1]);
    if keys.len() == 2 {
        assert(keys.drop_last().last() == keys[0]);
    }
}

} // verus!
