//! Rebuilding a memtable from the write-ahead log.

use super::batch::wrote;
use super::batch::OpView;
use super::batch::WriteBatchOp;
use super::block::sorted_entries;
use super::block_entry::Pair;
use super::internal_key::decode_internal_key;
use super::internal_key::ik_lt;
use super::internal_key::is_internal;
use super::internal_key::lemma_decode_encoded;
use super::internal_key::lemma_encode_decoded;
use super::internal_key::lemma_internal_total_order;
use super::internal_key::seq_of;
use super::internal_key::type_of;
use super::internal_key::user_of;
use super::internal_key::VALUE_TYPE_DELETION;
use super::internal_key::VALUE_TYPE_MERGE;
use super::internal_key::VALUE_TYPE_VALUE;
use super::memtable::MemTable;
use super::mvcc::bounded;
use super::mvcc::entry_of;
use super::mvcc::lemma_wrote_within;
use super::range_tombstone::tombstone_views;
use super::range_tombstone::TombstoneView;
use super::versions::holds_pair;
use super::versions::lemma_sorted_skip;
use crate::bytes::copy_bytes;
use crate::error::Error;
use crate::error::ErrorKind;
use crate::names::lemma_number_round_trip;
use crate::names::padded;
use crate::names::parse_number;
use crate::names::parsed;
use crate::names::strip_prefix;
use crate::names::stripped_prefix;
use vstd::prelude::*;
use vstd::string::StringSliceAdditionalSpecFns;
use vstd::utf8::encode_utf8;

verus! {

// ── Which logs ───────────────────────────────────────────────────

/// What the names of logs start with.
pub const WAL_PREFIX: &'static str = "wal_";

/// The id in the name of a log, without its extension.
pub open spec fn log_id(stem: Seq<u8>) -> Option<u64> {
    match stripped_prefix(stem, WAL_PREFIX.spec_bytes()) {
        Some(number) => parsed(number),
        None => None,
    }
}

/// The id in the name of a log, without its extension; `None` for any other
/// name.
pub fn wal_file_id(stem: &str) -> (r: Option<u64>)
    ensures
        r == log_id(stem.spec_bytes()),
{
    match strip_prefix(stem.as_bytes(), WAL_PREFIX.as_bytes()) {
        Some(number) => parse_number(number),
        None => None,
    }
}

/// A log is replayed. A log without an id is older than the marker that a reset
/// leaves, so once there was a reset it must not bring data back.
pub open spec fn is_replayed(stem: Seq<u8>, min_wal_id: u64) -> bool {
    match log_id(stem) {
        Some(id) => id >= min_wal_id,
        None => min_wal_id == 0,
    }
}

/// Whether a log is replayed.
pub fn should_replay_wal(stem: &str, min_wal_id: u64) -> (r: bool)
    ensures
        r == is_replayed(stem.spec_bytes(), min_wal_id),
{
    match wal_file_id(stem) {
        Some(id) => id >= min_wal_id,
        None => min_wal_id == 0,
    }
}

/// The id of the next log: at least what the manifest says, and greater than
/// that of every log there is.
pub open spec fn fresh_wal_id(next_file_id: u64, stems: Seq<String>) -> u64
    decreases stems.len(),
{
    if stems.len() == 0 {
        next_file_id
    } else {
        let rest = fresh_wal_id(next_file_id, stems.drop_last());
        match log_id(encode_utf8(stems.last()@)) {
            Some(id) => {
                let after = if id == u64::MAX {
                    u64::MAX
                } else {
                    (id + 1) as u64
                };
                if after > rest {
                    after
                } else {
                    rest
                }
            },
            None => rest,
        }
    }
}

/// The id of the next log.
pub fn next_wal_id(manifest_next_file_id: u64, stems: &Vec<String>) -> (r: u64)
    ensures
        r == fresh_wal_id(manifest_next_file_id, stems@),
{
    let mut r: u64 = manifest_next_file_id;
    let mut i: usize = 0;
    assert(stems@.take(0) =~= Seq::<String>::empty());
    while i < stems.len()
        invariant
            i <= stems@.len(),
            r == fresh_wal_id(manifest_next_file_id, stems@.take(i as int)),
        decreases stems@.len() - i,
    {
        assert(stems@.take(i + 1).drop_last() =~= stems@.take(i as int));
        match wal_file_id(stems[i].as_str()) {
            Some(id) => {
                let after: u64 = id.saturating_add(1);
                if after > r {
                    r = after;
                }
            },
            None => {},
        }
        i += 1;
    }
    assert(stems@.take(i as int) =~= stems@);
    r
}

/// The next log has an id that no log has, and that the manifest has not given
/// away.
pub proof fn lemma_fresh_wal_id(next_file_id: u64, stems: Seq<String>, i: int)
    requires
        0 <= i < stems.len(),
    ensures
        fresh_wal_id(next_file_id, stems) >= next_file_id,
        log_id(encode_utf8(stems[i]@)) matches Some(id) ==> id < u64::MAX ==> fresh_wal_id(
            next_file_id,
            stems,
        ) > id,
    decreases stems.len(),
{
    let p = stems.drop_last();
    if i < p.len() {
        assert(p[i] == stems[i]);
        lemma_fresh_wal_id(next_file_id, p, i);
    } else if p.len() > 0 {
        lemma_fresh_wal_id(next_file_id, p, 0);
    } else {
        assert(fresh_wal_id(next_file_id, p) == next_file_id);
    }
}

// ── Replay ───────────────────────────────────────────────────────

/// A write in the log, with its sequence number.
pub enum WalEntry {
    Put { key: Vec<u8>, value: Vec<u8>, seq: u64 },
    Delete { key: Vec<u8>, seq: u64 },
    DeleteRange { start: Vec<u8>, end: Vec<u8>, seq: u64 },
    Merge { key: Vec<u8>, operand: Vec<u8>, seq: u64 },
}

/// What a write in the log says.
#[verifier::ext_equal]
pub struct LoggedView {
    pub op: OpView,
    pub seq: u64,
}

impl View for WalEntry {
    type V = LoggedView;

    open spec fn view(&self) -> LoggedView {
        match self {
            WalEntry::Put { key, value, seq } => LoggedView {
                op: OpView::Put { key: key@, value: value@ },
                seq: *seq,
            },
            WalEntry::Delete { key, seq } => LoggedView {
                op: OpView::Delete { key: key@ },
                seq: *seq,
            },
            WalEntry::DeleteRange { start, end, seq } => LoggedView {
                op: OpView::DeleteRange { start: start@, end: end@ },
                seq: *seq,
            },
            WalEntry::Merge { key, operand, seq } => LoggedView {
                op: OpView::Merge { key: key@, operand: operand@ },
                seq: *seq,
            },
        }
    }
}

/// The write of a batch that has the sequence number `seq`, as the log has it.
pub fn logged(op: &WriteBatchOp, seq: u64) -> (r: WalEntry)
    ensures
        r@ == (LoggedView { op: op@, seq }),
{
    match op {
        WriteBatchOp::Put { key, value } => WalEntry::Put {
            key: copy_bytes(key.as_slice()),
            value: copy_bytes(value.as_slice()),
            seq,
        },
        WriteBatchOp::Delete { key } => WalEntry::Delete { key: copy_bytes(key.as_slice()), seq },
        WriteBatchOp::DeleteRange { start, end } => WalEntry::DeleteRange {
            start: copy_bytes(start.as_slice()),
            end: copy_bytes(end.as_slice()),
            seq,
        },
        WriteBatchOp::Merge { key, operand } => WalEntry::Merge {
            key: copy_bytes(key.as_slice()),
            operand: copy_bytes(operand.as_slice()),
            seq,
        },
    }
}

/// What the writes in a log say.
pub open spec fn logged_views(s: Seq<WalEntry>) -> Seq<LoggedView> {
    s.map_values(|e: WalEntry| e@)
}

/// Do to a memtable what a write in the log says, and return its sequence
/// number.
pub fn apply_replayed_wal_entry(memtable: &mut MemTable, entry: &WalEntry) -> (r: u64)
    requires
        old(memtable).wf(),
    ensures
        final(memtable).wf(),
        r == entry@.seq,
        wrote(*old(memtable), *final(memtable), entry@.op, entry@.seq),
{
    match entry {
        WalEntry::Put { key, value, seq } => {
            memtable.put(key.as_slice(), value.as_slice(), *seq);
            *seq
        },
        WalEntry::Delete { key, seq } => {
            memtable.delete(key.as_slice(), *seq);
            *seq
        },
        WalEntry::DeleteRange { start, end, seq } => {
            memtable.delete_range(start.as_slice(), end.as_slice(), *seq);
            *seq
        },
        WalEntry::Merge { key, operand, seq } => {
            memtable.merge(key.as_slice(), operand.as_slice(), *seq);
            *seq
        },
    }
}

/// `ms` is a memtable before the first write of a log, and after each of them.
pub open spec fn is_replay(ms: Seq<MemTable>, log: Seq<LoggedView>) -> bool {
    &&& ms.len() == log.len() + 1
    &&& forall|i: int|
        #![trigger log[i]]
        0 <= i < log.len() ==> wrote(ms[i], ms[i + 1], log[i].op, log[i].seq)
}

/// What replaying a log does to a memtable.
pub open spec fn replayed(m0: MemTable, m1: MemTable, log: Seq<LoggedView>) -> bool {
    exists|ms: Seq<MemTable>| #[trigger]
        is_replay(ms, log) && ms[0] == m0 && ms[log.len() as int] == m1
}

/// The greatest of a sequence number and those of a log.
pub open spec fn latest_logged(latest: u64, log: Seq<LoggedView>) -> u64
    decreases log.len(),
{
    if log.len() == 0 {
        latest
    } else {
        let rest = latest_logged(latest, log.drop_last());
        if log.last().seq > rest {
            log.last().seq
        } else {
            rest
        }
    }
}

/// Replay a log, and return the greatest sequence number seen.
pub fn replay_entries(memtable: &mut MemTable, entries: &Vec<WalEntry>, latest_seq: u64) -> (r: u64)
    requires
        old(memtable).wf(),
    ensures
        final(memtable).wf(),
        replayed(*old(memtable), *final(memtable), logged_views(entries@)),
        r == latest_logged(latest_seq, logged_views(entries@)),
{
    let ghost log = logged_views(entries@);
    let ghost mut ms: Seq<MemTable> = seq![*memtable];
    let mut latest: u64 = latest_seq;
    let mut i: usize = 0;
    assert(log.take(0) =~= Seq::<LoggedView>::empty());
    while i < entries.len()
        invariant
            i <= entries@.len(),
            log == logged_views(entries@),
            memtable.wf(),
            latest == latest_logged(latest_seq, log.take(i as int)),
            ms.len() == i + 1,
            ms[0] == *old(memtable),
            ms[i as int] == *memtable,
            forall|j: int|
                #![trigger log[j]]
                0 <= j < i ==> wrote(ms[j], ms[j + 1], log[j].op, log[j].seq),
        decreases entries@.len() - i,
    {
        let ghost before = ms;
        assert(log.take(i + 1).drop_last() =~= log.take(i as int));
        let seq: u64 = apply_replayed_wal_entry(memtable, &entries[i]);
        if seq > latest {
            latest = seq;
        }
        proof {
            ms = ms.push(*memtable);
            assert forall|j: int|
                #![trigger log[j]]
                0 <= j < i + 1 implies wrote(ms[j], ms[j + 1], log[j].op, log[j].seq) by {
                if j < i {
                    assert(ms[j] == before[j] && ms[j + 1] == before[j + 1]);
                }
            }
        }
        i += 1;
    }
    assert(log.take(i as int) =~= log);
    assert(is_replay(ms, log));
    latest
}

// ── Writing the memtable back ────────────────────────────────────

/// The entry is a value, a deletion or a merge operand.
pub open spec fn known_type(p: Pair) -> bool {
    type_of(p.0) == VALUE_TYPE_VALUE || type_of(p.0) == VALUE_TYPE_DELETION || type_of(p.0)
        == VALUE_TYPE_MERGE
}

/// The write that made an entry.
pub open spec fn logged_entry(p: Pair) -> LoggedView {
    LoggedView {
        op: if type_of(p.0) == VALUE_TYPE_VALUE {
            OpView::Put { key: user_of(p.0), value: p.1 }
        } else if type_of(p.0) == VALUE_TYPE_DELETION {
            OpView::Delete { key: user_of(p.0) }
        } else {
            OpView::Merge { key: user_of(p.0), operand: p.1 }
        },
        seq: seq_of(p.0),
    }
}

/// The write that made a tombstone.
pub open spec fn logged_tombstone(t: TombstoneView) -> LoggedView {
    LoggedView { op: OpView::DeleteRange { start: t.start, end: t.end }, seq: t.seq }
}

/// The log of a memtable: its entries, then its tombstones.
pub open spec fn log_of(es: Seq<Pair>, ts: Seq<TombstoneView>) -> Seq<LoggedView> {
    es.map_values(|p: Pair| logged_entry(p)) + ts.map_values(|t: TombstoneView| logged_tombstone(t))
}

/// The log that a recovered memtable is written to, so that the logs it was
/// rebuilt from can go. An entry of an unknown kind is refused.
pub fn rewrite_recovered_memtable(memtable: &MemTable) -> (r: Result<Vec<WalEntry>, Error>)
    requires
        memtable.wf(),
    ensures
        r is Ok <==> forall|i: int|
            0 <= i < memtable.entries().len() ==> known_type(#[trigger] memtable.entries()[i]),
        r matches Ok(v) ==> logged_views(v@) == log_of(
            memtable.entries(),
            tombstone_views(memtable.tombstones()),
        ),
        r matches Err(e) ==> e.kind == ErrorKind::InvalidData,
{
    let ghost es = memtable.entries();
    let ghost ts = tombstone_views(memtable.tombstones());
    let ghost head = es.map_values(|p: Pair| logged_entry(p));
    let ghost tail = ts.map_values(|t: TombstoneView| logged_tombstone(t));
    let mut out: Vec<WalEntry> = Vec::new();
    let entries = memtable.iter_internal();
    proof {
        memtable.lemma_sorted();
        assert(logged_views(out@) =~= head.take(0));
    }
    let mut i: usize = 0;
    while i < entries.len()
        invariant
            i <= entries@.len(),
            es == memtable.entries(),
            sorted_entries(es),
            super::block::pairs(entries@) == es,
            head == es.map_values(|p: Pair| logged_entry(p)),
            logged_views(out@) == head.take(i as int),
            forall|j: int| 0 <= j < i ==> known_type(#[trigger] es[j]),
        decreases entries@.len() - i,
    {
        let ghost before = logged_views(out@);
        proof {
            assert(super::block::pairs(entries@)[i as int] == (
                entries@[i as int].0@,
                entries@[i as int].1@,
            ));
            assert(is_internal(es[i as int].0));
        }
        let (user_key, seq, value_type) = decode_internal_key(entries[i].0.as_slice());
        let record = if value_type == VALUE_TYPE_VALUE {
            WalEntry::Put {
                key: copy_bytes(user_key),
                value: copy_bytes(entries[i].1.as_slice()),
                seq,
            }
        } else if value_type == VALUE_TYPE_DELETION {
            WalEntry::Delete { key: copy_bytes(user_key), seq }
        } else if value_type == VALUE_TYPE_MERGE {
            WalEntry::Merge {
                key: copy_bytes(user_key),
                operand: copy_bytes(entries[i].1.as_slice()),
                seq,
            }
        } else {
            assert(!known_type(es[i as int]));
            return Err(Error::invalid_data("unknown value type in recovered memtable"));
        };
        let ghost rv = record@;
        out.push(record);
        proof {
            assert(rv == head[i as int]);
            assert(logged_views(out@) =~= before.push(rv));
            assert(head.take(i + 1) =~= head.take(i as int).push(rv));
        }
        i += 1;
    }
    let tombstones = memtable.clone_range_tombstones();
    proof {
        assert(head.take(i as int) =~= head);
        assert(head + tail.take(0) =~= head);
    }
    let mut j: usize = 0;
    while j < tombstones.len()
        invariant
            j <= tombstones@.len(),
            tombstones@.len() == ts.len(),
            forall|k: int| 0 <= k < ts.len() ==> (#[trigger] tombstones@[k])@ == ts[k],
            tail == ts.map_values(|t: TombstoneView| logged_tombstone(t)),
            logged_views(out@) == head + tail.take(j as int),
        decreases tombstones@.len() - j,
    {
        let ghost before = logged_views(out@);
        let t = &tombstones[j];
        let record = WalEntry::DeleteRange {
            start: copy_bytes(t.start.as_slice()),
            end: copy_bytes(t.end.as_slice()),
            seq: t.seq,
        };
        let ghost rv = record@;
        out.push(record);
        proof {
            assert(tombstones@[j as int]@ == ts[j as int]);
            assert(rv == tail[j as int]);
            assert(logged_views(out@) =~= before.push(rv));
            assert(tail.take(j + 1) =~= tail.take(j as int).push(rv));
            assert(before.push(rv) =~= head + tail.take(j + 1));
        }
        j += 1;
    }
    assert(tail.take(j as int) =~= tail);
    Ok(out)
}

/// Sorted runs with the same entries are the same.
pub proof fn lemma_sorted_same(es: Seq<Pair>, fs: Seq<Pair>)
    requires
        sorted_entries(es),
        sorted_entries(fs),
        forall|k: Seq<u8>, v: Seq<u8>| #[trigger] holds_pair(es, k, v) == holds_pair(fs, k, v),
    ensures
        es == fs,
    decreases es.len(),
{
    if es.len() == 0 {
        if fs.len() > 0 {
            assert(fs[0] == (fs[0].0, fs[0].1));
            assert(holds_pair(fs, fs[0].0, fs[0].1));
            assert(holds_pair(es, fs[0].0, fs[0].1));
        }
        assert(es =~= fs);
    } else {
        assert(es[0] == (es[0].0, es[0].1));
        assert(holds_pair(es, es[0].0, es[0].1));
        assert(holds_pair(fs, es[0].0, es[0].1));
        let j = choose|j: int| 0 <= j < fs.len() && #[trigger] fs[j] == (es[0].0, es[0].1);
        assert(fs[0] == (fs[0].0, fs[0].1));
        assert(holds_pair(fs, fs[0].0, fs[0].1));
        assert(holds_pair(es, fs[0].0, fs[0].1));
        let i = choose|i: int| 0 <= i < es.len() && #[trigger] es[i] == (fs[0].0, fs[0].1);
        if i > 0 {
            assert(ik_lt(es[0].0, es[i].0));
            if j > 0 {
                assert(ik_lt(fs[0].0, fs[j].0));
            }
            lemma_internal_total_order(es[0].0, fs[0].0, es[0].0);
        }
        assert(es[0] == fs[0]);
        let e1 = es.skip(1);
        let f1 = fs.skip(1);
        lemma_sorted_skip(es);
        lemma_sorted_skip(fs);
        assert forall|k: Seq<u8>, v: Seq<u8>| #[trigger]
            holds_pair(e1, k, v) == holds_pair(f1, k, v) by {
            lemma_holds_rest(es, k, v);
            lemma_holds_rest(fs, k, v);
            assert(holds_pair(es, k, v) == holds_pair(fs, k, v));
        }
        lemma_sorted_same(e1, f1);
        assert(es =~= seq![es[0]] + e1);
        assert(fs =~= seq![fs[0]] + f1);
    }
}

proof fn lemma_holds_rest(es: Seq<Pair>, k: Seq<u8>, v: Seq<u8>)
    requires
        sorted_entries(es),
        es.len() > 0,
    ensures
        holds_pair(es.skip(1), k, v) == (holds_pair(es, k, v) && (k, v) != es[0]),
{
    let rest = es.skip(1);
    if holds_pair(rest, k, v) {
        let i = choose|i: int| 0 <= i < rest.len() && #[trigger] rest[i] == (k, v);
        assert(es[i + 1] == (k, v));
        if (k, v) == es[0] {
            lemma_internal_total_order(es[0].0, es[i + 1].0, es[0].0);
        }
    }
    if holds_pair(es, k, v) && (k, v) != es[0] {
        let i = choose|i: int| 0 <= i < es.len() && #[trigger] es[i] == (k, v);
        assert(rest[i - 1] == (k, v));
    }
}

/// After `n` writes of a memtable's log an empty memtable holds its first `n`
/// entries, and its tombstones once the entries are through.
proof fn lemma_log_replays_to(
    es: Seq<Pair>,
    ts: Seq<TombstoneView>,
    ms: Seq<MemTable>,
    n: int,
)
    requires
        sorted_entries(es),
        forall|i: int| 0 <= i < es.len() ==> known_type(#[trigger] es[i]),
        forall|i: int|
            0 <= i < es.len() && type_of((#[trigger] es[i]).0) == VALUE_TYPE_DELETION
                ==> es[i].1.len() == 0,
        is_replay(ms, log_of(es, ts)),
        ms[0].wf(),
        ms[0].entries().len() == 0,
        ms[0].tombstones().len() == 0,
        0 <= n <= es.len() + ts.len(),
    ensures
        ms[n].wf(),
        forall|k: Seq<u8>, v: Seq<u8>| #[trigger]
            holds_pair(ms[n].entries(), k, v) == holds_pair(
                es.take(if n < es.len() {
                    n
                } else {
                    es.len() as int
                }),
                k,
                v,
            ),
        tombstone_views(ms[n].tombstones()) == ts.take(if n < es.len() {
            0
        } else {
            n - es.len()
        }),
    decreases n,
{
    let log = log_of(es, ts);
    let done = if n < es.len() {
        n
    } else {
        es.len() as int
    };
    if n == 0 {
        assert(tombstone_views(ms[0].tombstones()) =~= ts.take(0));
    } else {
        lemma_log_replays_to(es, ts, ms, n - 1);
        let r = log[n - 1];
        assert(wrote(ms[n - 1], ms[n], r.op, r.seq));
        if n <= es.len() {
            let p = es[n - 1];
            assert(r == logged_entry(p));
            assert(known_type(p));
            assert(is_internal(p.0));
            lemma_encode_decoded(p.0);
            assert(entry_of(r.op, r.seq)->0 == p) by {
                if type_of(p.0) == VALUE_TYPE_DELETION {
                    assert(p.1 =~= Seq::<u8>::empty());
                }
            }
            assert forall|k: Seq<u8>, v: Seq<u8>| #[trigger]
                holds_pair(ms[n].entries(), k, v) == holds_pair(es.take(done), k, v) by {
                let before = es.take(n - 1);
                let after = es.take(n);
                assert(holds_pair(ms[n - 1].entries(), k, v) == holds_pair(before, k, v));
                if holds_pair(before, k, v) {
                    let i = choose|i: int| 0 <= i < before.len() && #[trigger] before[i] == (k, v);
                    assert(after[i] == (k, v));
                    if k == p.0 {
                        lemma_internal_total_order(es[i].0, es[n - 1].0, es[i].0);
                    }
                }
                if holds_pair(after, k, v) {
                    let i = choose|i: int| 0 <= i < after.len() && #[trigger] after[i] == (k, v);
                    if i < n - 1 {
                        assert(before[i] == (k, v));
                    }
                }
                if (k, v) == p {
                    assert(after[n - 1] == (k, v));
                }
            }
            assert(ts.take(0) =~= Seq::<TombstoneView>::empty());
        } else {
            let t = ts[n - 1 - es.len()];
            assert(r == logged_tombstone(t));
            let old_ts = ms[n - 1].tombstones();
            let new_ts = ms[n].tombstones();
            assert(tombstone_views(new_ts) =~= tombstone_views(old_ts).push(t)) by {
                assert(new_ts.last()@ == t);
                assert forall|i: int| 0 <= i < old_ts.len() implies new_ts[i]@ == old_ts[i]@ by {
                    assert(new_ts.drop_last()[i] == new_ts[i]);
                }
            }
            assert(ts.take(n - es.len()) =~= ts.take(n - 1 - es.len()).push(t));
        }
    }
}

/// Replaying the log that a recovered memtable was written to gives the same
/// memtable: a crash right after a recovery loses nothing, however often it
/// happens.
pub proof fn lemma_rewritten_log_replays(m: MemTable, empty: MemTable, again: MemTable)
    requires
        m.wf(),
        proper_entries(m.entries()),
        empty.wf(),
        empty.entries().len() == 0,
        empty.tombstones().len() == 0,
        replayed(empty, again, log_of(m.entries(), tombstone_views(m.tombstones()))),
    ensures
        again.entries() == m.entries(),
        tombstone_views(again.tombstones()) == tombstone_views(m.tombstones()),
{
    let es = m.entries();
    let ts = tombstone_views(m.tombstones());
    let log = log_of(es, ts);
    m.lemma_sorted();
    let ms = choose|ms: Seq<MemTable>| #[trigger]
        is_replay(ms, log) && ms[0] == empty && ms[log.len() as int] == again;
    lemma_log_replays_to(es, ts, ms, log.len() as int);
    assert(es.take(es.len() as int) =~= es);
    assert(ts.take(ts.len() as int) =~= ts);
    again.lemma_sorted();
    lemma_sorted_same(again.entries(), es);
}

/// Every entry is of a known kind, and deletions carry no value.
pub open spec fn proper_entries(es: Seq<Pair>) -> bool {
    &&& forall|i: int| 0 <= i < es.len() ==> known_type(#[trigger] es[i])
    &&& forall|i: int|
        0 <= i < es.len() && type_of((#[trigger] es[i]).0) == VALUE_TYPE_DELETION
            ==> es[i].1.len() == 0
}

/// A write keeps entries proper.
pub proof fn lemma_wrote_proper(m0: MemTable, m1: MemTable, op: OpView, seq: u64)
    requires
        wrote(m0, m1, op, seq),
        proper_entries(m0.entries()),
    ensures
        proper_entries(m1.entries()),
{
    match entry_of(op, seq) {
        Some(p) => {
            match op {
                OpView::Put { key, value } => {
                    lemma_decode_encoded(key, seq, VALUE_TYPE_VALUE);
                },
                OpView::Delete { key } => {
                    lemma_decode_encoded(key, seq, VALUE_TYPE_DELETION);
                },
                OpView::Merge { key, operand } => {
                    lemma_decode_encoded(key, seq, VALUE_TYPE_MERGE);
                },
                _ => {},
            }
            let es = m1.entries();
            assert forall|i: int| 0 <= i < es.len() implies known_type(#[trigger] es[i]) && (type_of(
                es[i].0,
            ) == VALUE_TYPE_DELETION ==> es[i].1.len() == 0) by {
                let q = es[i];
                assert(es[i] == (q.0, q.1));
                assert(holds_pair(es, q.0, q.1));
                if q.0 != p.0 {
                    assert(holds_pair(m0.entries(), q.0, q.1));
                    let j = choose|j: int|
                        0 <= j < m0.entries().len() && #[trigger] m0.entries()[j] == (q.0, q.1);
                    assert(known_type(m0.entries()[j]));
                }
            }
        },
        None => {},
    }
}

/// A replay of a log into an empty memtable makes proper entries.
pub proof fn lemma_replayed_proper(m0: MemTable, m1: MemTable, log: Seq<LoggedView>)
    requires
        replayed(m0, m1, log),
        proper_entries(m0.entries()),
    ensures
        proper_entries(m1.entries()),
{
    let ms = choose|ms: Seq<MemTable>| #[trigger]
        is_replay(ms, log) && ms[0] == m0 && ms[log.len() as int] == m1;
    lemma_replay_proper(ms, log, log.len() as int);
}

proof fn lemma_replay_proper(ms: Seq<MemTable>, log: Seq<LoggedView>, n: int)
    requires
        is_replay(ms, log),
        0 <= n <= log.len(),
        proper_entries(ms[0].entries()),
    ensures
        proper_entries(ms[n].entries()),
    decreases n,
{
    if n > 0 {
        lemma_replay_proper(ms, log, n - 1);
        assert(wrote(ms[n - 1], ms[n], log[n - 1].op, log[n - 1].seq));
        lemma_wrote_proper(ms[n - 1], ms[n], log[n - 1].op, log[n - 1].seq);
    }
}

/// A replay of a log whose sequence numbers were given out makes entries as the
/// engine writes them.
pub proof fn lemma_replayed_given(empty: MemTable, m: MemTable, log: Seq<LoggedView>)
    requires
        replayed(empty, m, log),
        empty.entries().len() == 0,
        forall|i: int| 0 <= i < log.len() ==> (#[trigger] log[i]).seq > 0,
    ensures
        forall|p: Pair| #[trigger]
            m.entries().contains(p) ==> seq_of(p.0) > 0 && type_of(p.0) <= VALUE_TYPE_MERGE,
{
    let ms = choose|ms: Seq<MemTable>| #[trigger]
        is_replay(ms, log) && ms[0] == empty && ms[log.len() as int] == m;
    assert forall|p: Pair| #[trigger] m.entries().contains(p) implies seq_of(p.0) > 0 && type_of(
        p.0,
    ) <= VALUE_TYPE_MERGE by {
        lemma_replay_given(ms, log, log.len() as int, p);
    }
}

proof fn lemma_replay_given(ms: Seq<MemTable>, log: Seq<LoggedView>, n: int, p: Pair)
    requires
        is_replay(ms, log),
        0 <= n <= log.len(),
        ms[0].entries().len() == 0,
        forall|i: int| 0 <= i < log.len() ==> (#[trigger] log[i]).seq > 0,
        ms[n].entries().contains(p),
    ensures
        seq_of(p.0) > 0 && type_of(p.0) <= VALUE_TYPE_MERGE,
    decreases n,
{
    if n > 0 {
        let w = log[n - 1];
        assert(wrote(ms[n - 1], ms[n], w.op, w.seq));
        let es = ms[n].entries();
        let fs = ms[n - 1].entries();
        let i = choose|i: int| 0 <= i < es.len() && es[i] == p;
        assert(es[i] == (p.0, p.1));
        assert(holds_pair(es, p.0, p.1));
        match w.op {
            OpView::Put { key, value } => {
                lemma_decode_encoded(key, w.seq, VALUE_TYPE_VALUE);
            },
            OpView::Delete { key } => {
                lemma_decode_encoded(key, w.seq, VALUE_TYPE_DELETION);
            },
            OpView::Merge { key, operand } => {
                lemma_decode_encoded(key, w.seq, VALUE_TYPE_MERGE);
            },
            OpView::DeleteRange { start, end } => {},
        }
        if holds_pair(fs, p.0, p.1) {
            let j = choose|j: int| 0 <= j < fs.len() && #[trigger] fs[j] == (p.0, p.1);
            assert(fs[j] == p);
            lemma_replay_given(ms, log, n - 1, p);
        } else if w.op is DeleteRange {
            assert(fs[i] == (p.0, p.1));
        }
    }
}

/// A replay keeps the bound on sequence numbers.
pub proof fn lemma_replayed_bounded(m0: MemTable, m1: MemTable, log: Seq<LoggedView>, latest: u64)
    requires
        replayed(m0, m1, log),
        m0.wf(),
        bounded(m0, latest),
    ensures
        bounded(m1, latest_logged(latest, log)),
{
    let ms = choose|ms: Seq<MemTable>| #[trigger]
        is_replay(ms, log) && ms[0] == m0 && ms[log.len() as int] == m1;
    lemma_replay_bounded(ms, log, latest, log.len() as int);
    assert(log.take(log.len() as int) =~= log);
}

proof fn lemma_replay_bounded(ms: Seq<MemTable>, log: Seq<LoggedView>, latest: u64, n: int)
    requires
        is_replay(ms, log),
        0 <= n <= log.len(),
        bounded(ms[0], latest),
    ensures
        bounded(ms[n], latest_logged(latest, log.take(n))),
    decreases n,
{
    if n > 0 {
        lemma_replay_bounded(ms, log, latest, n - 1);
        let r = log[n - 1];
        assert(wrote(ms[n - 1], ms[n], r.op, r.seq));
        assert(log.take(n).drop_last() =~= log.take(n - 1));
        let before = latest_logged(latest, log.take(n - 1));
        let after = latest_logged(latest, log.take(n));
        assert(before <= after && r.seq <= after);
        lemma_wrote_within(ms[n - 1], ms[n], r.op, r.seq, after);
    } else {
        assert(log.take(0) =~= Seq::<LoggedView>::empty());
    }
}

// ── Which logs count ─────────────────────────────────────────────

/// Once a reset has left its marker, no log from before it is replayed: a
/// greater marker only ever shuts out more logs. A log counts by the number in
/// its name, from the marker on; one without a number counts until there is a
/// marker.
pub proof fn lemma_a_marker_shuts_out_older_logs(stem: Seq<u8>, number: u64, width: nat, a: u64, b: u64)
    requires
        a <= b,
    ensures
        is_replayed(stem, b) ==> is_replayed(stem, a),
        stem == WAL_PREFIX.spec_bytes() + encode_utf8(padded(number as nat, 10, width)) ==> (
        is_replayed(stem, a) <==> a <= number),
        is_replayed(stem, 0),
{
    if stem == WAL_PREFIX.spec_bytes() + encode_utf8(padded(number as nat, 10, width)) {
        let n = WAL_PREFIX.spec_bytes().len() as int;
        lemma_number_round_trip(number, width);
        assert(stem.take(n) =~= WAL_PREFIX.spec_bytes());
        assert(stem.skip(n) =~= encode_utf8(padded(number as nat, 10, width)));
    }
}

/// After recovery the last sequence number is that of the manifest or of a
/// logged write, whichever is greatest, so that no number is given out twice.
pub proof fn lemma_latest_is_the_greatest(latest: u64, log: Seq<LoggedView>)
    ensures
        latest_logged(latest, log) >= latest,
        forall|i: int| 0 <= i < log.len() ==> (#[trigger] log[i]).seq <= latest_logged(latest, log),
        latest_logged(latest, log) == latest || exists|i: int|
            0 <= i < log.len() && (#[trigger] log[i]).seq == latest_logged(latest, log),
    decreases log.len(),
{
    if log.len() > 0 {
        let front = log.drop_last();
        let n = log.len() - 1;
        lemma_latest_is_the_greatest(latest, front);
        assert(log[n] == log.last());
        assert forall|i: int| 0 <= i < log.len() implies (#[trigger] log[i]).seq <= latest_logged(
            latest,
            log,
        ) by {
            if i < n {
                assert(front[i] == log[i]);
            }
        }
        let top = latest_logged(latest, log);
        if top != latest && top != log.last().seq {
            let i = choose|i: int| 0 <= i < front.len() && (#[trigger] front[i]).seq == top;
            assert(log[i].seq == top);
        } else if top != latest {
            assert(log[n].seq == top);
        }
    }
}

} // verus!
