//! The engine: memtables, tables, sequence numbers and the life of a database.
//!
//! The engine keeps the state and decides; logs, manifests and tables are read
//! and written around it. A step that needs a write in between comes in two
//! parts: the first says what to write, the second takes effect once it has
//! been written. An error in between leaves the state as the first part left
//! it.

use super::age_laws::older_bounded;
use super::batch::apply_ops;
use super::batch::op_views;
use super::batch::wrote_all;
use super::batch::WriteBatchOp;
use super::block::pairs;
use super::compaction_pick::is_range_job;
use super::compaction_pick::opt_bound;
use super::compaction_pick::pick_range_job;
use super::compaction_pick::CompactionJob;
use super::copy_laws::in_tables_alone;
use super::engine_laws::flushed;
use super::hooks::opt_bytes;
use super::hooks::MergeOperator;
use super::ingest::compute_target_level;
use super::ingest::tree_meets;
use super::ingest::IngestOptions;
use super::internal_key::seq_of;
use super::iterator::LarkIterator;
use super::lookup::first_seq;
use super::lookup::walk;
use super::lookup::walk_chain;
use super::manifest::compact_records;
use super::manifest::edit_records;
use super::manifest::edited;
use super::manifest::empty_levels;
use super::manifest::tables_size;
use super::manifest::PendingVersion;
use super::manifest::Version;
use super::manifest::VersionEdit;
use super::manifest::VersionView;
use super::manifest_record::frames;
use super::manifest_record::MAX_LEVELS;
use super::memtable::range_count;
use super::memtable::range_size;
use super::memtable::MemTable;
use super::merge_laws::lemma_plain_lookups_find_the_newest;
use super::merge_laws::merged_read;
use super::merge_laws::met;
use super::merge_laws::newest_over;
use super::merge_laws::plain_read;
use super::merge_laws::result_of;
use super::multi_get::fails_first;
use super::mvcc::bounded;
use super::mvcc::lemma_batch_within;
use super::options::gate;
use super::options::stall_level;
use super::options::write_gate;
use super::options::EngineOptions;
use super::options::Stall;
use super::options::WriteGate;
use super::order_laws::in_order;
use super::order_laws::lemma_dropping_empty_keeps_order;
use super::order_laws::lemma_flush_keeps_order;
use super::order_laws::lemma_only_active_is_in_order;
use super::order_laws::lemma_same_levels_keep_order;
use super::order_laws::lemma_sealing_keeps_order;
use super::order_laws::lemma_writing_keeps_order;
use super::range_tombstone::holds;
use super::range_tombstone::lemma_same_views;
use super::range_tombstone::lemma_sorted_holds_same;
use super::range_tombstone::tombstone_views;
use super::range_tombstone::RangeTombstone;
use super::range_tombstone::TombstoneView;
use super::read_horizon::ReadHorizon;
use super::read_view::files_wf;
use super::read_view::may_read;
use super::read_view::ReadView;
use super::recovery::fresh_wal_id;
use super::recovery::latest_logged;
use super::recovery::lemma_replayed_bounded;
use super::recovery::lemma_replayed_given;
use super::recovery::lemma_replayed_proper;
use super::recovery::log_of;
use super::recovery::logged_views;
use super::recovery::next_wal_id;
use super::recovery::replay_entries;
use super::recovery::replayed;
use super::recovery::rewrite_recovered_memtable;
use super::recovery::LoggedView;
use super::recovery::WalEntry;
use super::scan_laws::lemma_age_order_serves_scans;
use super::sstable::share;
use super::sstable::LiveSst;
use super::table_build::build_table;
use super::table_build::greatest_key;
use super::table_build::least_key;
use crate::bytes::bytes_lt;
use crate::bytes::copy_bytes;
use crate::bytes::lex_lt;
use crate::error::Error;
use crate::error::ErrorKind;
use std::sync::Arc;
use vstd::prelude::*;

verus! {

/// Where a database is in its life.
#[derive(Debug, Clone, Copy, PartialEq, Eq, Structural)]
pub enum CloseState {
    Open,
    Closing,
    Closed,
}

/// The state of an open database.
pub struct LarkEngine {
    view: ReadView,
    latest_seq: u64,
    visible_seq: ReadHorizon,
    close_state: CloseState,
    options: EngineOptions,
    wal_id: u64,
    cached_stall_level: u8,
}

/// Everything in a table has a sequence number up to `seq`.
pub open spec fn table_bounded(t: LiveSst, seq: u64) -> bool {
    &&& forall|i: int|
        0 <= i < t.reader.entries().len() ==> seq_of((#[trigger] t.reader.entries()[i]).0) <= seq
    &&& forall|i: int|
        0 <= i < t.reader.tombstones().len() ==> (#[trigger] t.reader.tombstones()[i]).seq <= seq
}

/// Everything in the tables of a version has a sequence number up to `seq`.
pub open spec fn version_bounded(v: Version, seq: u64) -> bool {
    forall|l: int, i: int|
        0 <= l < v.levels@.len() && 0 <= i < v.levels@[l]@.len() ==> table_bounded(
            *(#[trigger] v.levels@[l]@[i]),
            seq,
        )
}

/// Everything that a view holds has a sequence number up to `seq`.
pub open spec fn view_bounded(v: ReadView, seq: u64) -> bool {
    &&& bounded(v.active, seq)
    &&& forall|i: int| 0 <= i < v.frozen@.len() ==> bounded(#[trigger] v.frozen@[i], seq)
    &&& version_bounded(v.version, seq)
}

/// The version has no tables.
pub open spec fn no_tables(v: Version) -> bool {
    forall|l: int| 0 <= l < v.levels@.len() ==> (#[trigger] v.levels@[l])@.len() == 0
}

/// The sequence numbers in a log were given out: they start at 1.
pub open spec fn logs_given(log: Seq<LoggedView>) -> bool {
    forall|i: int| 0 <= i < log.len() ==> (#[trigger] log[i]).seq > 0
}

/// What was replayed from logs, with no tables below it, is in order.
proof fn lemma_opened_empty(v: ReadView, empty: MemTable, log: Seq<LoggedView>)
    requires
        no_tables(v.version),
        logs_given(log),
        v.frozen@.len() == 0,
        empty.entries().len() == 0,
        replayed(empty, v.active, log),
    ensures
        in_order(v),
        forall|seq: u64| #[trigger] version_bounded(v.version, seq),
{
    lemma_replayed_given(empty, v.active, log);
    lemma_only_active_is_in_order(v);
}

/// The tables of a version are well formed.
pub open spec fn tables_wf(v: Version) -> bool {
    &&& v.wf()
    &&& forall|l: int| 0 <= l < v.levels@.len() ==> files_wf((#[trigger] v.levels@[l])@)
}

/// A memtable holds something to flush.
pub open spec fn holds_data(m: MemTable) -> bool {
    m.entries().len() > 0 || m.tombstones().len() > 0
}

/// Whether a memtable holds something to flush: entries or range tombstones.
pub fn memtable_needs_flush(memtable: &MemTable) -> (r: bool)
    ensures
        r == holds_data(*memtable),
{
    if !memtable.is_empty() {
        return true;
    }
    memtable.clone_range_tombstones().len() > 0
}

// ── Opening ──────────────────────────────────────────────────────

/// A database that was recovered, and what is to be written before it is open.
pub struct Recovered {
    pub engine: LarkEngine,
    /// The new log, in full. It has to be durable before the old ones go.
    pub records: Vec<WalEntry>,
    /// What to append to the manifest, and to install then.
    pub pending: PendingVersion,
}

impl LarkEngine {
    /// What reads see.
    pub closed spec fn sources(&self) -> ReadView {
        self.view
    }

    /// The last sequence number that was handed out.
    pub closed spec fn latest(&self) -> u64 {
        self.latest_seq
    }

    /// The read horizon.
    pub closed spec fn horizon(&self) -> u64 {
        self.visible_seq.seq()
    }

    /// Where the database is in its life.
    pub closed spec fn state(&self) -> CloseState {
        self.close_state
    }

    /// How the engine is tuned.
    pub closed spec fn opts(&self) -> EngineOptions {
        self.options
    }

    /// The id of the log that writes go to.
    pub closed spec fn log(&self) -> u64 {
        self.wal_id
    }

    /// What is remembered of the last stall.
    pub closed spec fn stall_cached(&self) -> u8 {
        self.cached_stall_level
    }

    /// All sources are well formed.
    pub open spec fn wf(&self) -> bool {
        self.sources().wf()
    }

    /// No sequence number in the database is greater than the last that was
    /// handed out, no snapshot reads beyond it, and the sources are in order of
    /// age.
    pub open spec fn orderly(&self) -> bool {
        &&& view_bounded(self.sources(), self.latest())
        &&& self.horizon() <= self.latest()
        &&& in_order(self.sources())
    }

    /// Nothing but the sources and the sequence numbers differs.
    pub open spec fn same_life(&self, other: LarkEngine) -> bool {
        &&& self.state() == other.state()
        &&& self.opts() == other.opts()
        &&& self.log() == other.log()
        &&& self.stall_cached() == other.stall_cached()
    }

    /// Recover a database: the manifest's version, and what the logs hold that
    /// are replayed, whose names are `stems`, in the order of their names.
    ///
    /// The recovered memtable is written to a new log before the old ones go,
    /// so that a crash at any point leaves one full copy.
    pub fn open(
        version: Version,
        stems: &Vec<String>,
        entries: &Vec<WalEntry>,
        options: EngineOptions,
    ) -> (r: Result<Recovered, Error>)
        requires
            tables_wf(version),
            fresh_wal_id(version.next_file_id, stems@) < u64::MAX,
        ensures
            r is Ok,
            r matches Ok(x) ==> {
                let e = x.engine;
                &&& e.wf()
                &&& e.sources().version == version
                &&& e.sources().frozen@.len() == 0
                &&& exists|empty: MemTable|
                    empty.entries().len() == 0 && empty.tombstones().len() == 0 && #[trigger]
                        replayed(empty, e.sources().active, logged_views(entries@))
                &&& e.latest() == latest_logged(version.last_seq, logged_views(entries@))
                &&& e.horizon() == e.latest()
                &&& e.state() == CloseState::Open
                &&& e.opts() == (EngineOptions { read_only: false, ..options })
                &&& e.log() == fresh_wal_id(version.next_file_id, stems@)
                &&& e.stall_cached() == 0
                &&& logged_views(x.records@) == log_of(
                    e.sources().active.entries(),
                    tombstone_views(e.sources().active.tombstones()),
                )
                &&& x.pending.version@ == (VersionView {
                    next_file_id: (e.log() + 1) as u64,
                    ..version@
                })
                &&& x.pending.records@ == frames(
                    seq![super::manifest_record::RecordView::SetNextFileId((e.log() + 1) as u64)],
                )
                &&& !x.pending.sync
                &&& tables_wf(x.pending.version)
                &&& version_bounded(version, version.last_seq) && in_order(e.sources())
                    ==> e.orderly()
                &&& no_tables(version) && logs_given(logged_views(entries@)) ==> e.orderly()
            },
    {
        let mut memtable = MemTable::new();
        let ghost empty = memtable;
        let latest_seq: u64 = replay_entries(&mut memtable, entries, version.last_seq);
        let wal_id: u64 = next_wal_id(version.next_file_id, stems);
        proof {
            lemma_replayed_proper(empty, memtable, logged_views(entries@));
            lemma_replayed_bounded(empty, memtable, logged_views(entries@), version.last_seq);
            lemma_latest_logged(version.last_seq, logged_views(entries@));
        }
        let records = match rewrite_recovered_memtable(&memtable) {
            Ok(v) => v,
            Err(e) => return Err(e),
        };
        let pending = next_file_pending(&version, wal_id + 1);
        proof {
            lemma_pending_tables(version, pending.version);
        }
        let engine = LarkEngine {
            view: ReadView { active: memtable, frozen: Vec::new(), version },
            latest_seq,
            visible_seq: ReadHorizon::new(latest_seq),
            close_state: CloseState::Open,
            options: EngineOptions { read_only: false, ..options },
            wal_id,
            cached_stall_level: 0,
        };
        proof {
            assert(replayed(empty, engine.sources().active, logged_views(entries@)));
            if version_bounded(version, version.last_seq) {
                lemma_bound_grows(engine.view.version, version.last_seq, latest_seq);
            }
            if no_tables(version) && logs_given(logged_views(entries@)) {
                lemma_opened_empty(engine.view, empty, logged_views(entries@));
            }
        }
        Ok(Recovered { engine, records, pending })
    }

    /// Open a database for reading: nothing is written.
    pub fn open_read_only(
        version: Version,
        stems: &Vec<String>,
        entries: &Vec<WalEntry>,
        options: EngineOptions,
    ) -> (e: LarkEngine)
        requires
            tables_wf(version),
        ensures
            e.wf(),
            e.sources().version == version,
            e.sources().frozen@.len() == 0,
            exists|empty: MemTable|
                empty.entries().len() == 0 && empty.tombstones().len() == 0 && #[trigger] replayed(
                    empty,
                    e.sources().active,
                    logged_views(entries@),
                ),
            e.latest() == latest_logged(version.last_seq, logged_views(entries@)),
            e.horizon() == e.latest(),
            e.state() == CloseState::Open,
            e.opts() == (EngineOptions { read_only: true, ..options }),
            e.log() == fresh_wal_id(version.next_file_id, stems@),
            e.stall_cached() == 0,
            version_bounded(version, version.last_seq) && in_order(e.sources()) ==> e.orderly(),
            no_tables(version) && logs_given(logged_views(entries@)) ==> e.orderly(),
    {
        let mut memtable = MemTable::new();
        let ghost empty = memtable;
        let latest_seq: u64 = replay_entries(&mut memtable, entries, version.last_seq);
        let wal_id: u64 = next_wal_id(version.next_file_id, stems);
        proof {
            lemma_replayed_bounded(empty, memtable, logged_views(entries@), version.last_seq);
            lemma_latest_logged(version.last_seq, logged_views(entries@));
        }
        let engine = LarkEngine {
            view: ReadView { active: memtable, frozen: Vec::new(), version },
            latest_seq,
            visible_seq: ReadHorizon::new(latest_seq),
            close_state: CloseState::Open,
            options: EngineOptions { read_only: true, ..options },
            wal_id,
            cached_stall_level: 0,
        };
        proof {
            assert(replayed(empty, engine.sources().active, logged_views(entries@)));
            if version_bounded(version, version.last_seq) {
                lemma_bound_grows(engine.view.version, version.last_seq, latest_seq);
            }
            if no_tables(version) && logs_given(logged_views(entries@)) {
                lemma_opened_empty(engine.view, empty, logged_views(entries@));
            }
        }
        engine
    }

    // ── Life ─────────────────────────────────────────────────────

    /// Whether the database is closing or closed.
    pub fn is_closed(&self) -> (r: bool)
        ensures
            r == (self.state() != CloseState::Open),
    {
        match self.close_state {
            CloseState::Open => false,
            _ => true,
        }
    }

    /// Whether the database was opened for reading.
    pub fn is_read_only(&self) -> (r: bool)
        ensures
            r == self.opts().read_only,
    {
        self.options.read_only
    }

    /// Fail unless the database is open.
    pub fn ensure_open(&self) -> (r: Result<(), Error>)
        ensures
            r is Ok <==> self.state() == CloseState::Open,
            r matches Err(e) ==> e.kind == ErrorKind::NotConnected,
    {
        if self.is_closed() {
            Err(Error::new(ErrorKind::NotConnected, "database is closed"))
        } else {
            Ok(())
        }
    }

    /// Fail unless the database is open, and not for reading only.
    pub fn ensure_writable(&self) -> (r: Result<(), Error>)
        ensures
            r is Ok <==> self.state() == CloseState::Open && !self.opts().read_only,
            r matches Err(e) ==> e.kind == if self.state() != CloseState::Open {
                ErrorKind::NotConnected
            } else {
                ErrorKind::PermissionDenied
            },
    {
        match self.ensure_open() {
            Ok(()) => {},
            Err(e) => return Err(e),
        }
        if self.options.read_only {
            Err(Error::new(ErrorKind::PermissionDenied, "database was opened read-only"))
        } else {
            Ok(())
        }
    }

    /// Start to close. `false` where the database is closed already. From here
    /// on nothing is read or written, until closing has succeeded or failed.
    pub fn begin_close(&mut self) -> (r: Result<bool, Error>)
        ensures
            match old(self).state() {
                CloseState::Open => r matches Ok(go) && go && final(self).state()
                    == CloseState::Closing,
                CloseState::Closing => r matches Err(e) && e.kind == ErrorKind::NotConnected
                    && final(self).state() == CloseState::Closing,
                CloseState::Closed => r matches Ok(go) && !go && final(self).state()
                    == CloseState::Closed,
            },
            final(self).sources() == old(self).sources(),
            final(self).latest() == old(self).latest(),
            final(self).horizon() == old(self).horizon(),
            final(self).opts() == old(self).opts(),
            final(self).log() == old(self).log(),
            final(self).stall_cached() == old(self).stall_cached(),
    {
        match self.close_state {
            CloseState::Closed => Ok(false),
            CloseState::Closing => Err(Error::new(ErrorKind::NotConnected, "database is closed")),
            CloseState::Open => {
                self.close_state = CloseState::Closing;
                Ok(true)
            },
        }
    }

    /// End closing. Where the data could not be made durable the database is
    /// open again.
    pub fn finish_close(&mut self, succeeded: bool)
        ensures
            final(self).state() == if succeeded {
                CloseState::Closed
            } else {
                CloseState::Open
            },
            final(self).sources() == old(self).sources(),
            final(self).latest() == old(self).latest(),
            final(self).horizon() == old(self).horizon(),
            final(self).opts() == old(self).opts(),
            final(self).log() == old(self).log(),
            final(self).stall_cached() == old(self).stall_cached(),
    {
        self.close_state = if succeeded {
            CloseState::Closed
        } else {
            CloseState::Open
        };
    }
}

// ── Edits of the version ─────────────────────────────────────────

/// A version with another next file id, and the record of it.
fn next_file_pending(version: &Version, next_file_id: u64) -> (r: PendingVersion)
    requires
        version.wf(),
    ensures
        r.version.wf(),
        r.version@ == (VersionView { next_file_id, ..version@ }),
        r.records@ == frames(seq![super::manifest_record::RecordView::SetNextFileId(next_file_id)]),
        !r.sync,
{
    let mut edits: Vec<VersionEdit> = Vec::new();
    edits.push(VersionEdit::SetNextFileId(next_file_id));
    let ghost es = edits@;
    proof {
        assert(es.drop_last() =~= Seq::<VersionEdit>::empty());
        assert(edited(version@, es.drop_last()) == version@);
        assert(edit_records(es) =~= seq![
            super::manifest_record::RecordView::SetNextFileId(next_file_id),
        ]);
        assert forall|i: int| 0 <= i < es.len() implies (#[trigger] es[i]).level_ok() by {}
    }
    match version.apply(&edits) {
        Ok(p) => p,
        Err(_) => {
            assert(false);
            PendingVersion { version: version.snapshot(), records: Vec::new(), sync: false }
        },
    }
}

/// A greater bound holds as well.
proof fn lemma_bound_grows(v: Version, a: u64, b: u64)
    requires
        version_bounded(v, a),
        a <= b,
    ensures
        version_bounded(v, b),
{
    assert forall|l: int, i: int|
        0 <= l < v.levels@.len() && 0 <= i < v.levels@[l]@.len() implies table_bounded(
        *(#[trigger] v.levels@[l]@[i]),
        b,
    ) by {
        assert(table_bounded(*v.levels@[l]@[i], a));
    }
}

proof fn lemma_latest_logged(latest: u64, log: Seq<LoggedView>)
    ensures
        latest_logged(latest, log) >= latest,
    decreases log.len(),
{
    if log.len() > 0 {
        lemma_latest_logged(latest, log.drop_last());
    }
}

/// A version with the same tables is as well formed.
proof fn lemma_pending_tables(v: Version, w: Version)
    requires
        tables_wf(v),
        w.wf(),
        w@.levels == v@.levels,
    ensures
        tables_wf(w),
        forall|seq: u64| #[trigger] version_bounded(v, seq) ==> version_bounded(w, seq),
{
    assert forall|l: int| 0 <= l < w.levels@.len() implies files_wf(
        (#[trigger] w.levels@[l])@,
    ) by {
        assert(w@.levels[l] == v@.levels[l]);
        assert(files_wf(v.levels@[l]@));
    }
    assert forall|seq: u64| #[trigger] version_bounded(v, seq) implies version_bounded(w, seq) by {
        assert forall|l: int, i: int|
            0 <= l < w.levels@.len() && 0 <= i < w.levels@[l]@.len() implies table_bounded(
            *(#[trigger] w.levels@[l]@[i]),
            seq,
        ) by {
            assert(w@.levels[l] == v@.levels[l]);
            assert(table_bounded(*v.levels@[l]@[i], seq));
        }
    }
}

// ── Reading ──────────────────────────────────────────────────────

impl LarkEngine {
    /// The sequence number at which a snapshot taken now reads.
    pub fn snapshot_seq(&self) -> (r: u64)
        ensures
            r == self.horizon(),
    {
        self.visible_seq.visible()
    }

    /// What reads see.
    pub fn read_view(&self) -> (r: &ReadView)
        ensures
            *r == self.sources(),
    {
        &self.view
    }

    /// Point lookup at a snapshot. With a merge operator, the value of a merge
    /// chain is what the operator makes of it.
    pub fn get<M: MergeOperator>(&self, key: &[u8], snapshot_seq: u64, op: Option<&M>) -> (r:
        Result<Option<Vec<u8>>, Error>)
        requires
            self.wf(),
        ensures
            self.state() != CloseState::Open ==> (r matches Err(e) && e.kind
                == ErrorKind::NotConnected),
            self.state() == CloseState::Open ==> match op {
                None => r matches Ok(v) && opt_bytes(v) == walk(
                    self.sources().layers(key@),
                    key@,
                    snapshot_seq,
                    0,
                ),
                Some(m) => may_read(
                    *m,
                    key@,
                    walk_chain(self.sources().layers(key@), key@, snapshot_seq, 0),
                    r,
                ),
            },
            self.state() == CloseState::Open && in_order(self.sources()) ==> forall|h: u64|
                #[trigger]
                newest_over(self.sources(), key@, snapshot_seq, h) ==> match op {
                    None => r is Ok && plain_read(
                        met(self.sources(), key@, snapshot_seq),
                        h,
                        opt_bytes(r->Ok_0),
                    ),
                    Some(m) => merged_read(
                        *m,
                        key@,
                        met(self.sources(), key@, snapshot_seq),
                        h,
                        result_of(r),
                    ),
                },
    {
        match self.ensure_open() {
            Ok(()) => {},
            Err(e) => return Err(e),
        }
        match op {
            None => {
                let found = self.view.get(key, snapshot_seq);
                proof {
                    if in_order(self.view) {
                        assert forall|h: u64| #[trigger]
                            newest_over(self.view, key@, snapshot_seq, h) implies plain_read(
                            met(self.view, key@, snapshot_seq),
                            h,
                            opt_bytes(found),
                        ) by {
                            lemma_plain_lookups_find_the_newest(self.view, key@, snapshot_seq, h);
                        }
                    }
                }
                Ok(found)
            },
            Some(m) => self.view.get_with_merge(key, snapshot_seq, m),
        }
    }

    /// Point lookups of several keys at a snapshot. With a merge operator the
    /// first key that cannot be read fails them all.
    pub fn multi_get<M: MergeOperator>(
        &self,
        keys: &[&[u8]],
        snapshot_seq: u64,
        op: Option<&M>,
    ) -> (r: Result<Vec<Option<Vec<u8>>>, Error>)
        requires
            self.wf(),
        ensures
            self.state() != CloseState::Open ==> (r matches Err(e) && e.kind
                == ErrorKind::NotConnected),
            self.state() == CloseState::Open ==> match op {
                None => r matches Ok(v) && v@.len() == keys@.len() && forall|i: int|
                    0 <= i < keys@.len() ==> opt_bytes(#[trigger] v@[i]) == walk(
                        self.sources().layers(keys@[i]@),
                        keys@[i]@,
                        snapshot_seq,
                        0,
                    ),
                Some(m) => match r {
                    Ok(v) => v@.len() == keys@.len() && forall|i: int|
                        0 <= i < keys@.len() ==> may_read(
                            *m,
                            keys@[i]@,
                            walk_chain(
                                self.sources().layers(keys@[i]@),
                                keys@[i]@,
                                snapshot_seq,
                                0,
                            ),
                            Ok(#[trigger] v@[i]),
                        ),
                    Err(e) => exists|i: int| #[trigger]
                        fails_first(self.sources(), *m, keys@, snapshot_seq, i, e),
                },
            },
    {
        match self.ensure_open() {
            Ok(()) => {},
            Err(e) => return Err(e),
        }
        match op {
            None => Ok(self.view.multi_get(keys, snapshot_seq)),
            Some(m) => self.view.multi_get_with_merge(keys, snapshot_seq, m),
        }
    }

    /// An iterator at a snapshot. Where the database is closed the iterator
    /// has failed from the start.
    pub fn new_iter<'a, M: MergeOperator>(
        &'a self,
        snapshot_seq: u64,
        op: Option<&'a M>,
    ) -> (r: LarkIterator<'a, M>)
        requires
            self.wf(),
            self.orderly() || self.sources().scannable(),
        ensures
            r.wf(),
            self.sources().is_all(r.scan().all),
            forall|v: TombstoneView| #[trigger]
                holds(r.scan().rts, v) == self.sources().deletes(v),
            r.scan().snapshot_seq == snapshot_seq,
            r.scan().merges == (op is Some),
            r.op() == op,
            r.current() is None,
            r.terminal() == (self.state() != CloseState::Open),
            self.state() == CloseState::Open ==> r.err() is None,
            self.state() != CloseState::Open ==> (r.err() matches Some(e) && e.kind
                == ErrorKind::NotConnected),
    {
        proof {
            if self.orderly() {
                lemma_age_order_serves_scans(self.view);
            }
        }
        let mut it = self.view.new_iter(snapshot_seq, op);
        match self.ensure_open() {
            Ok(()) => {},
            Err(e) => {
                it.set_error(e);
            },
        }
        it
    }

    // ── Writing ──────────────────────────────────────────────────

    /// Check a batch before anything is done: `false` where there is nothing
    /// to do.
    pub fn check_batch(&self, ops: &Vec<WriteBatchOp>) -> (r: Result<bool, Error>)
        ensures
            ({
                let writable = self.state() == CloseState::Open && !self.opts().read_only;
                let fits = forall|i: int|
                    0 <= i < ops@.len() ==> self.opts().sizes.op_fits((#[trigger] ops@[i])@);
                &&& r is Ok <==> writable && fits
                &&& r matches Ok(go) ==> go == (ops@.len() > 0)
                &&& r matches Err(e) ==> e.kind == if self.state() != CloseState::Open {
                    ErrorKind::NotConnected
                } else if self.opts().read_only {
                    ErrorKind::PermissionDenied
                } else {
                    ErrorKind::InvalidInput
                }
            }),
    {
        match self.ensure_writable() {
            Ok(()) => {},
            Err(e) => return Err(e),
        }
        if ops.len() == 0 {
            return Ok(false);
        }
        match self.options.sizes.validate_ops_sizes(ops) {
            Ok(()) => Ok(true),
            Err(e) => Err(e),
        }
    }

    /// Whether the memtable has to be sealed before the next write. A writer
    /// seals it first, so that an error means that the write did not land.
    pub fn is_full(&self) -> (r: bool)
        ensures
            r == (self.sources().active.charged() >= self.opts().write_buffer_size),
    {
        self.view.active.approximate_size() >= self.options.write_buffer_size
    }

    /// The last sequence number that was handed out.
    pub fn latest_seq(&self) -> (r: u64)
        ensures
            r == self.latest(),
    {
        self.latest_seq
    }

    /// Hand out consecutive sequence numbers, and return the first. They are
    /// spent whether or not the write succeeds.
    pub fn reserve_seqs(&mut self, count: u64) -> (r: u64)
        requires
            old(self).latest() + count <= u64::MAX,
            count > 0,
        ensures
            r == old(self).latest() + 1,
            final(self).latest() == old(self).latest() + count,
            final(self).sources() == old(self).sources(),
            final(self).horizon() == old(self).horizon(),
            final(self).same_life(*old(self)),
            old(self).orderly() ==> final(self).orderly(),
    {
        let base: u64 = self.latest_seq + 1;
        self.latest_seq = self.latest_seq + count;
        proof {
            if old(self).orderly() {
                lemma_view_bound_grows(self.view, old(self).latest_seq, self.latest_seq);
            }
        }
        base
    }

    /// Apply a batch whose sequence numbers start at `base_seq` and which the
    /// log has, then move the read horizon behind it: a snapshot sees all of
    /// the batch or nothing of it.
    pub fn apply_batch(&mut self, ops: &Vec<WriteBatchOp>, base_seq: u64)
        requires
            old(self).wf(),
            ops@.len() > 0,
            base_seq + ops@.len() <= old(self).latest() + 1,
        ensures
            final(self).wf(),
            wrote_all(
                old(self).sources().active,
                final(self).sources().active,
                op_views(ops@),
                base_seq,
            ),
            final(self).sources().frozen == old(self).sources().frozen,
            final(self).sources().version == old(self).sources().version,
            final(self).latest() == old(self).latest(),
            final(self).horizon() == if base_seq + ops@.len() - 1 > old(self).horizon() {
                (base_seq + ops@.len() - 1) as u64
            } else {
                old(self).horizon()
            },
            final(self).same_life(*old(self)),
            old(self).orderly() && base_seq > 0 && older_bounded(
                old(self).sources(),
                (base_seq - 1) as u64,
            ) ==> final(self).orderly(),
    {
        let n: usize = ops.len();
        apply_ops(&mut self.view.active, ops, base_seq);
        self.visible_seq.publish(base_seq + (n as u64 - 1));
        proof {
            assert(op_views(ops@).len() == ops@.len());
            if old(self).orderly() {
                lemma_batch_within(
                    old(self).view.active,
                    self.view.active,
                    op_views(ops@),
                    base_seq,
                    self.latest_seq,
                );
                if base_seq > 0 && older_bounded(old(self).view, (base_seq - 1) as u64) {
                    lemma_writing_keeps_order(
                        old(self).view,
                        self.view,
                        op_views(ops@),
                        base_seq,
                    );
                }
            }
        }
    }

    /// The first of the keys that was written after the snapshot, and the
    /// sequence number of that write.
    pub fn find_conflict(&self, conflict_keys: &Vec<Vec<u8>>, snapshot_seq: u64) -> (r: Option<
        (usize, u64),
    >)
        requires
            self.wf(),
        ensures
            match r {
                Some((i, seq)) => {
                    &&& i < conflict_keys@.len()
                    &&& written_after(self.sources(), conflict_keys@[i as int]@, snapshot_seq)
                    &&& first_seq(
                        self.sources().layers(conflict_keys@[i as int]@),
                        conflict_keys@[i as int]@,
                        u64::MAX,
                    ) == Some(seq)
                    &&& forall|j: int|
                        0 <= j < i ==> !written_after(
                            self.sources(),
                            (#[trigger] conflict_keys@[j])@,
                            snapshot_seq,
                        )
                },
                None => forall|j: int|
                    0 <= j < conflict_keys@.len() ==> !written_after(
                        self.sources(),
                        (#[trigger] conflict_keys@[j])@,
                        snapshot_seq,
                    ),
            },
    {
        let mut i: usize = 0;
        while i < conflict_keys.len()
            invariant
                self.wf(),
                i <= conflict_keys@.len(),
                forall|j: int|
                    0 <= j < i ==> !written_after(
                        self.sources(),
                        (#[trigger] conflict_keys@[j])@,
                        snapshot_seq,
                    ),
            decreases conflict_keys@.len() - i,
        {
            match self.view.latest_version_seq(conflict_keys[i].as_slice()) {
                Some(seq) => {
                    if seq > snapshot_seq {
                        return Some((i, seq));
                    }
                },
                None => {},
            }
            i += 1;
        }
        None
    }

    /// Whether an optimistic transaction that read at `snapshot_seq` may
    /// commit: fails with the first of its keys that was written since.
    pub fn check_commit(&self, conflict_keys: &Vec<Vec<u8>>, snapshot_seq: u64) -> (r: Result<
        CommitOutcome,
        Error,
    >)
        requires
            self.wf(),
        ensures
            r is Ok <==> self.state() == CloseState::Open && !self.opts().read_only,
            r matches Err(e) ==> e.kind == if self.state() != CloseState::Open {
                ErrorKind::NotConnected
            } else {
                ErrorKind::PermissionDenied
            },
            r matches Ok(CommitOutcome::Clear) ==> forall|j: int|
                0 <= j < conflict_keys@.len() ==> !written_after(
                    self.sources(),
                    (#[trigger] conflict_keys@[j])@,
                    snapshot_seq,
                ),
            r matches Ok(CommitOutcome::Conflict { key, observed_seq, latest_seq }) ==> exists|
                i: int,
            |
                0 <= i < conflict_keys@.len() && key@ == (#[trigger] conflict_keys@[i])@
                    && observed_seq == snapshot_seq && latest_seq > snapshot_seq && first_seq(
                    self.sources().layers(key@),
                    key@,
                    u64::MAX,
                ) == Some(latest_seq) && forall|j: int|
                    0 <= j < i ==> !written_after(
                        self.sources(),
                        (#[trigger] conflict_keys@[j])@,
                        snapshot_seq,
                    ),
    {
        match self.ensure_writable() {
            Ok(()) => {},
            Err(e) => return Err(e),
        }
        match self.find_conflict(conflict_keys, snapshot_seq) {
            Some((i, latest_seq)) => {
                let key = copy_bytes(conflict_keys[i].as_slice());
                assert(key@ == conflict_keys@[i as int]@);
                Ok(CommitOutcome::Conflict { key, observed_seq: snapshot_seq, latest_seq })
            },
            None => Ok(CommitOutcome::Clear),
        }
    }

    // ── Stalls ───────────────────────────────────────────────────

    /// How writers are held up, if they are: by the tables at level 0, their
    /// bytes, and the memtables.
    pub open spec fn stalled(&self) -> Option<Stall> {
        let l0 = self.sources().version.levels@[0]@;
        self.opts().stalls.stall(l0.len(), self.sources().frozen@.len() + 1, tables_size(l0))
    }

    /// How writers are held up, if they are.
    pub fn stall_state(&self) -> (r: Option<Stall>)
        requires
            self.wf(),
            tables_size(self.sources().version.levels@[0]@) <= u64::MAX,
            self.sources().frozen@.len() < usize::MAX,
        ensures
            r == self.stalled(),
    {
        let l0: usize = self.view.version.l0_count();
        let pending: u64 = self.view.version.level_size(0);
        let memtables: usize = self.view.frozen.len() + 1;
        self.options.stalls.stall_state(l0, memtables, pending)
    }

    /// Remember how writers are held up. Called after whatever changes it.
    pub fn refresh_stall_level(&mut self)
        requires
            old(self).wf(),
            tables_size(old(self).sources().version.levels@[0]@) <= u64::MAX,
            old(self).sources().frozen@.len() < usize::MAX,
        ensures
            final(self).stall_cached() == match old(self).stalled() {
                None => 0u8,
                Some(s) => if s.stop {
                    2u8
                } else {
                    1u8
                },
            },
            final(self).sources() == old(self).sources(),
            final(self).latest() == old(self).latest(),
            final(self).horizon() == old(self).horizon(),
            final(self).state() == old(self).state(),
            final(self).opts() == old(self).opts(),
            final(self).log() == old(self).log(),
    {
        let stall = self.stall_state();
        self.cached_stall_level = stall_level(stall);
    }

    /// What a writer does next.
    pub fn wait_for_write_capacity(&mut self, no_slowdown: bool) -> (r: WriteGate)
        requires
            old(self).wf(),
            tables_size(old(self).sources().version.levels@[0]@) <= u64::MAX,
            old(self).sources().frozen@.len() < usize::MAX,
        ensures
            r == gate(
                old(self).state() != CloseState::Open,
                old(self).stall_cached(),
                old(self).stalled(),
                no_slowdown,
            ),
            final(self).stall_cached() == if r is ProceedCleared {
                0
            } else {
                old(self).stall_cached()
            },
            final(self).sources() == old(self).sources(),
            final(self).latest() == old(self).latest(),
            final(self).horizon() == old(self).horizon(),
            final(self).state() == old(self).state(),
            final(self).opts() == old(self).opts(),
            final(self).log() == old(self).log(),
    {
        let closed = self.is_closed();
        let stall = self.stall_state();
        let r = write_gate(closed, self.cached_stall_level, stall, no_slowdown);
        match r {
            WriteGate::ProceedCleared => {
                self.cached_stall_level = 0;
            },
            _ => {},
        }
        r
    }
}

/// The outcome of an optimistic transaction's commit.
pub enum CommitOutcome {
    /// Nobody else changed what the transaction read.
    Clear,
    /// Another writer changed `key` after the transaction read it.
    Conflict { key: Vec<u8>, observed_seq: u64, latest_seq: u64 },
}

/// The newest version that a lookup without a snapshot finds of the key is
/// newer than the snapshot.
pub open spec fn written_after(v: ReadView, key: Seq<u8>, snapshot_seq: u64) -> bool {
    first_seq(v.layers(key), key, u64::MAX) matches Some(seq) && seq > snapshot_seq
}

/// A greater bound holds as well.
proof fn lemma_view_bound_grows(v: ReadView, a: u64, b: u64)
    requires
        view_bounded(v, a),
        a <= b,
    ensures
        view_bounded(v, b),
{
    lemma_bound_grows(v.version, a, b);
    assert forall|i: int| 0 <= i < v.frozen@.len() implies bounded(#[trigger] v.frozen@[i], b) by {
        assert(bounded(v.frozen@[i], a));
    }
}

// ── Sealing and flushing ─────────────────────────────────────────

/// A memtable that was sealed: the id of the new log, and the reservation of
/// it to append to the manifest and to install.
pub struct Rotation {
    pub wal_id: u64,
    pub pending: PendingVersion,
}

/// What the flusher does next.
pub enum FlushStep {
    /// No memtable is sealed.
    Nothing,
    /// The oldest sealed memtable is empty and goes without a table.
    Empty,
    /// A table is to be written of these entries and range tombstones.
    Write { entries: Vec<(Vec<u8>, Vec<u8>)>, tombstones: Vec<RangeTombstone> },
}

/// The table holds what the memtable holds.
pub open spec fn table_of(t: LiveSst, m: MemTable) -> bool {
    &&& t.wf()
    &&& t.reader.entries() == m.entries()
    &&& forall|v: TombstoneView| #[trigger]
        holds(t.reader.tombstones(), v) == holds(m.tombstones(), v)
}

/// The table of a memtable keeps to the memtable's bound.
proof fn lemma_table_bounded(t: LiveSst, m: MemTable, seq: u64)
    requires
        table_of(t, m),
        bounded(m, seq),
    ensures
        table_bounded(t, seq),
{
    let ts = t.reader.tombstones();
    assert forall|i: int| 0 <= i < ts.len() implies (#[trigger] ts[i]).seq <= seq by {
        assert(ts[i]@ == ts[i]@);
        assert(holds(ts, ts[i]@));
        let ms = m.tombstones();
        let j = choose|j: int| 0 <= j < ms.len() && (#[trigger] ms[j])@ == ts[i]@;
        assert(ms[j].seq <= seq);
        assert(ms[j]@.seq == ts[i]@.seq);
    }
}

/// The version with one more table at a level, and another last sequence
/// number.
pub open spec fn with_table(v: VersionView, level: int, t: LiveSst, last_seq: u64) -> VersionView {
    VersionView {
        levels: v.levels.update(level, v.levels[level].push(Arc::new(t))),
        last_seq,
        ..v
    }
}

/// The metadata of a table can be written.
pub open spec fn meta_fits(t: LiveSst) -> bool {
    37 + t.meta.smallest_key@.len() + t.meta.largest_key@.len() <= u32::MAX
}

impl LarkEngine {
    /// Seal the memtable: it waits to be flushed, and writes go to an empty
    /// one and to a new log.
    pub fn rotate_memtable(&mut self) -> (r: Result<Rotation, Error>)
        requires
            old(self).wf(),
            old(self).sources().version.next_file_id < u64::MAX,
        ensures
            final(self).wf(),
            final(self).sources().version == old(self).sources().version,
            final(self).latest() == old(self).latest(),
            final(self).horizon() == old(self).horizon(),
            final(self).same_life(*old(self)),
            old(self).orderly() ==> final(self).orderly(),
            r is Ok <==> old(self).state() == CloseState::Open && !old(self).opts().read_only,
            match r {
                Ok(x) => {
                    &&& final(self).sources().frozen@ == old(self).sources().frozen@.push(
                        old(self).sources().active,
                    )
                    &&& final(self).sources().active.entries().len() == 0
                    &&& final(self).sources().active.tombstones().len() == 0
                    &&& final(self).sources().active.charged() == 0
                    &&& x.wal_id == old(self).sources().version.next_file_id
                    &&& x.pending.version@ == (VersionView {
                        next_file_id: (x.wal_id + 1) as u64,
                        ..old(self).sources().version@
                    })
                    &&& x.pending.records@ == frames(
                        seq![
                            super::manifest_record::RecordView::SetNextFileId(
                                (x.wal_id + 1) as u64,
                            ),
                        ],
                    )
                    &&& tables_wf(x.pending.version)
                },
                Err(e) => *final(self) == *old(self) && e.kind == if old(self).state()
                    != CloseState::Open {
                    ErrorKind::NotConnected
                } else {
                    ErrorKind::PermissionDenied
                },
            },
    {
        match self.ensure_writable() {
            Ok(()) => {},
            Err(e) => return Err(e),
        }
        let mut sealed = MemTable::new();
        std::mem::swap(&mut self.view.active, &mut sealed);
        self.view.frozen.push(sealed);
        let wal_id: u64 = self.view.version.next_file_id;
        let pending = next_file_pending(&self.view.version, wal_id + 1);
        proof {
            lemma_pending_tables(self.view.version, pending.version);
            assert forall|i: int| 0 <= i < self.view.frozen@.len() implies (
            #[trigger] self.view.frozen@[i]).wf() by {
                if i < old(self).view.frozen@.len() {
                    assert(self.view.frozen@[i] == old(self).view.frozen@[i]);
                }
            }
            if old(self).orderly() {
                lemma_sealing_keeps_order(old(self).view, self.view);
            }
        }
        Ok(Rotation { wal_id, pending })
    }

    /// The next step towards an empty memory when the database closes: `None`
    /// where nothing waits to be flushed. A memtable that holds data is sealed,
    /// whether or not writes are still accepted.
    pub fn rotate_for_close(&mut self) -> (r: Option<Rotation>)
        requires
            old(self).wf(),
            old(self).sources().version.next_file_id < u64::MAX,
        ensures
            final(self).wf(),
            final(self).sources().version == old(self).sources().version,
            final(self).latest() == old(self).latest(),
            final(self).horizon() == old(self).horizon(),
            final(self).same_life(*old(self)),
            old(self).orderly() ==> final(self).orderly(),
            r is None <==> !holds_data(old(self).sources().active)
                && old(self).sources().frozen@.len() == 0,
            r is None ==> *final(self) == *old(self),
            holds_data(old(self).sources().active) ==> {
                &&& final(self).sources().frozen@ == old(self).sources().frozen@.push(
                    old(self).sources().active,
                )
                &&& !holds_data(final(self).sources().active)
                &&& final(self).sources().active.charged() == 0
            },
            !holds_data(old(self).sources().active) ==> final(self).sources() == old(
                self,
            ).sources(),
            r matches Some(x) ==> {
                &&& x.wal_id == old(self).sources().version.next_file_id
                &&& x.pending.version@ == (VersionView {
                    next_file_id: (x.wal_id + 1) as u64,
                    ..old(self).sources().version@
                })
                &&& x.pending.records@ == frames(
                    seq![super::manifest_record::RecordView::SetNextFileId((x.wal_id + 1) as u64)],
                )
                &&& tables_wf(x.pending.version)
            },
    {
        let unflushed = memtable_needs_flush(&self.view.active);
        if !unflushed && self.view.frozen.len() == 0 {
            return None;
        }
        let wal_id: u64 = self.view.version.next_file_id;
        let pending = next_file_pending(&self.view.version, wal_id + 1);
        proof {
            lemma_pending_tables(self.view.version, pending.version);
        }
        if unflushed {
            let mut sealed = MemTable::new();
            std::mem::swap(&mut self.view.active, &mut sealed);
            self.view.frozen.push(sealed);
            proof {
                assert forall|i: int| 0 <= i < self.view.frozen@.len() implies (
                #[trigger] self.view.frozen@[i]).wf() by {
                    if i < old(self).view.frozen@.len() {
                        assert(self.view.frozen@[i] == old(self).view.frozen@[i]);
                    }
                }
                if old(self).orderly() {
                    lemma_sealing_keeps_order(old(self).view, self.view);
                }
            }
        }
        Some(Rotation { wal_id, pending })
    }

    /// Writes go to the log with this id from now on.
    pub fn switch_log(&mut self, wal_id: u64)
        ensures
            final(self).log() == wal_id,
            final(self).sources() == old(self).sources(),
            final(self).latest() == old(self).latest(),
            final(self).horizon() == old(self).horizon(),
            final(self).state() == old(self).state(),
            final(self).opts() == old(self).opts(),
            final(self).stall_cached() == old(self).stall_cached(),
    {
        self.wal_id = wal_id;
    }

    /// Make a pending version, whose records are in the manifest, the current
    /// one.
    pub fn install(&mut self, pending: PendingVersion)
        requires
            old(self).wf(),
            tables_wf(pending.version),
        ensures
            final(self).wf(),
            final(self).sources().version == pending.version,
            final(self).sources().active == old(self).sources().active,
            final(self).sources().frozen == old(self).sources().frozen,
            final(self).latest() == old(self).latest(),
            final(self).horizon() == old(self).horizon(),
            final(self).same_life(*old(self)),
            old(self).orderly() && version_bounded(pending.version, old(self).latest()) && (
            pending.version@.levels == old(self).sources().version@.levels || in_order(
                final(self).sources(),
            )) ==> final(self).orderly(),
    {
        self.view.version = pending.version;
        proof {
            if old(self).orderly() && self.view.version@.levels == old(self).view.version@.levels {
                lemma_same_levels_keep_order(old(self).view, self.view);
            }
        }
    }

    /// Reserve an id for a table, and return it with the record of it.
    pub fn allocate_file_id(&self) -> (r: (u64, PendingVersion))
        requires
            self.wf(),
            self.sources().version.next_file_id < u64::MAX,
        ensures
            r.0 == self.sources().version.next_file_id,
            r.1.version@ == (VersionView {
                next_file_id: (r.0 + 1) as u64,
                ..self.sources().version@
            }),
            r.1.records@ == frames(
                seq![super::manifest_record::RecordView::SetNextFileId((r.0 + 1) as u64)],
            ),
            !r.1.sync,
            tables_wf(r.1.version),
            forall|seq: u64| #[trigger]
                version_bounded(self.sources().version, seq) ==> version_bounded(r.1.version, seq),
    {
        let id: u64 = self.view.version.next_file_id;
        let pending = next_file_pending(&self.view.version, id + 1);
        proof {
            lemma_pending_tables(self.view.version, pending.version);
        }
        (id, pending)
    }

    /// What the flusher does next, with the oldest sealed memtable.
    pub fn next_flush(&self) -> (r: FlushStep)
        requires
            self.wf(),
        ensures
            match r {
                FlushStep::Nothing => self.sources().frozen@.len() == 0,
                FlushStep::Empty => self.sources().frozen@.len() > 0 && !holds_data(
                    self.sources().frozen@[0],
                ),
                FlushStep::Write { entries, tombstones } => {
                    &&& self.sources().frozen@.len() > 0
                    &&& holds_data(self.sources().frozen@[0])
                    &&& pairs(entries@) == self.sources().frozen@[0].entries()
                    &&& tombstone_views(tombstones@) == tombstone_views(
                        self.sources().frozen@[0].tombstones(),
                    )
                },
            },
    {
        if self.view.frozen.len() == 0 {
            return FlushStep::Nothing;
        }
        let memtable = &self.view.frozen[0];
        if !memtable_needs_flush(memtable) {
            return FlushStep::Empty;
        }
        let entries = memtable.iter_internal();
        let tombstones = memtable.clone_range_tombstones();
        assert(tombstone_views(tombstones@) =~= tombstone_views(memtable.tombstones()));
        FlushStep::Write { entries, tombstones }
    }

    /// Drop the oldest sealed memtable, which is empty.
    pub fn drop_empty_memtable(&mut self)
        requires
            old(self).wf(),
            old(self).sources().frozen@.len() > 0,
            !holds_data(old(self).sources().frozen@[0]),
        ensures
            final(self).wf(),
            final(self).sources().frozen@ == old(self).sources().frozen@.remove(0),
            final(self).sources().active == old(self).sources().active,
            final(self).sources().version == old(self).sources().version,
            final(self).latest() == old(self).latest(),
            final(self).horizon() == old(self).horizon(),
            final(self).same_life(*old(self)),
            old(self).orderly() ==> final(self).orderly(),
    {
        let _ = self.view.frozen.remove(0);
        proof {
            lemma_frozen_tail(*old(self), *self);
            if old(self).orderly() {
                lemma_dropping_empty_keeps_order(old(self).view, self.view);
            }
        }
    }

    /// The table of the oldest sealed memtable, as it is on disk under this id
    /// with this size.
    pub fn flush_table(&self, file_id: u64, file_size: u64) -> (r: LiveSst)
        requires
            self.wf(),
            self.sources().frozen@.len() > 0,
            holds_data(self.sources().frozen@[0]),
        ensures
            table_of(r, self.sources().frozen@[0]),
            r.meta.file_id == file_id,
            r.meta.file_size == file_size,
            r.meta.num_entries == self.sources().frozen@[0].entries().len(),
            Some(r.meta.smallest_key@) == least_key(
                self.sources().frozen@[0].entries(),
                tombstone_views(self.sources().frozen@[0].tombstones()),
            ),
            Some(r.meta.largest_key@) == greatest_key(
                self.sources().frozen@[0].entries(),
                tombstone_views(self.sources().frozen@[0].tombstones()),
            ),
            self.orderly() ==> table_bounded(r, self.latest()),
    {
        let memtable = &self.view.frozen[0];
        let entries = memtable.iter_internal();
        let tombstones = memtable.clone_range_tombstones();
        let ghost ts = tombstones@;
        proof {
            memtable.lemma_sorted();
            assert(tombstone_views(ts) =~= tombstone_views(memtable.tombstones()));
            assert(pairs(entries@).len() == entries@.len());
        }
        match build_table(entries, tombstones, file_id, file_size) {
            Some(t) => {
                proof {
                    lemma_sorted_holds_same(ts, t.reader.tombstones());
                    lemma_same_views(ts, memtable.tombstones(), Seq::empty(), 0);
                    if self.orderly() {
                        lemma_table_bounded(t, self.view.frozen@[0], self.latest_seq);
                    }
                }
                t
            },
            None => {
                assert(false);
                LiveSst::new(
                    super::sstable::SsTableMeta {
                        file_id,
                        smallest_key: Vec::new(),
                        largest_key: Vec::new(),
                        file_size,
                        num_entries: 0,
                    },
                    super::sstable::SsTableReader::new(Vec::new(), Vec::new()),
                )
            },
        }
    }

    /// The version with a table added to a level and `last_seq` as its last
    /// sequence number, and the records of it.
    pub fn plan_add_table(&self, level: usize, table: LiveSst, last_seq: u64) -> (r: PendingVersion)
        requires
            self.wf(),
            level < MAX_LEVELS,
            table.wf(),
            meta_fits(table),
        ensures
            r.version@ == with_table(self.sources().version@, level as int, table, last_seq),
            r.sync,
            r.records@ == frames(
                seq![
                    super::manifest_record::RecordView::AddFile {
                        level: level as nat,
                        meta: table.meta@,
                    },
                    super::manifest_record::RecordView::SetLastSeq(last_seq),
                ],
            ),
            tables_wf(r.version),
            forall|seq: u64| #[trigger]
                version_bounded(self.sources().version, seq) && table_bounded(table, seq)
                    ==> version_bounded(r.version, seq),
    {
        let file = Arc::new(table);
        let mut edits: Vec<VersionEdit> = Vec::new();
        edits.push(VersionEdit::AddFile { level, file });
        edits.push(VersionEdit::SetLastSeq(last_seq));
        let ghost es = edits@;
        let ghost v = self.view.version@;
        proof {
            let first = es.drop_last();
            assert(first.drop_last() =~= Seq::<VersionEdit>::empty());
            assert(edited(v, first.drop_last()) == v);
            assert(edited(v, first) == es[0].on(v)) by {
                assert(first.last() == es[0]);
            }
            assert(edited(v, es) == es[1].on(edited(v, first))) by {
                assert(es.last() == es[1]);
            }
            assert(edit_records(es) =~= seq![
                super::manifest_record::RecordView::AddFile {
                    level: level as nat,
                    meta: table.meta@,
                },
                super::manifest_record::RecordView::SetLastSeq(last_seq),
            ]);
            assert forall|i: int| 0 <= i < es.len() implies (#[trigger] es[i]).level_ok()
                && es[i].record().ok() by {}
        }
        match self.view.version.apply(&edits) {
            Ok(p) => {
                proof {
                    assert(!(es[0] is SetNextFileId));
                    lemma_added_tables(self.view.version, p.version, level as int, table);
                }
                p
            },
            Err(_) => {
                assert(false);
                PendingVersion {
                    version: self.view.version.snapshot(),
                    records: Vec::new(),
                    sync: false,
                }
            },
        }
    }

    /// Let the table of a flush take the place of the memtable it was made of,
    /// in one step.
    pub fn finish_flush(&mut self, pending: PendingVersion)
        requires
            old(self).wf(),
            old(self).sources().frozen@.len() > 0,
            tables_wf(pending.version),
        ensures
            final(self).wf(),
            final(self).sources().version == pending.version,
            final(self).sources().active == old(self).sources().active,
            final(self).sources().frozen@ == old(self).sources().frozen@.remove(0),
            final(self).latest() == old(self).latest(),
            final(self).horizon() == old(self).horizon(),
            final(self).same_life(*old(self)),
            forall|t: LiveSst|
                old(self).orderly() && version_bounded(pending.version, old(self).latest())
                    && #[trigger] flushed(old(self).sources(), final(self).sources(), t)
                    ==> final(self).orderly(),
    {
        self.view.version = pending.version;
        let _ = self.view.frozen.remove(0);
        proof {
            lemma_frozen_tail(*old(self), *self);
            assert forall|t: LiveSst|
                old(self).orderly() && version_bounded(self.view.version, old(self).latest())
                    && #[trigger] flushed(old(self).sources(), self.sources(), t) implies in_order(
                self.view,
            ) by {
                lemma_flush_keeps_order(old(self).view, self.view, t);
            }
        }
    }

    /// Whether all data is in tables.
    pub fn memtables_hold_no_data(&self) -> (r: bool)
        ensures
            r == self.drained(),
    {
        if memtable_needs_flush(&self.view.active) {
            return false;
        }
        let mut i: usize = 0;
        while i < self.view.frozen.len()
            invariant
                i <= self.view.frozen@.len(),
                !holds_data(self.view.active),
                forall|j: int| 0 <= j < i ==> !holds_data(#[trigger] self.view.frozen@[j]),
            decreases self.view.frozen@.len() - i,
        {
            if memtable_needs_flush(&self.view.frozen[i]) {
                assert(holds_data(self.view.frozen@[i as int]));
                return false;
            }
            i += 1;
        }
        true
    }

    /// All data is in tables.
    pub open spec fn drained(&self) -> bool {
        in_tables_alone(self.sources())
    }
}

proof fn lemma_frozen_tail(a: LarkEngine, b: LarkEngine)
    requires
        a.wf(),
        a.view.frozen@.len() > 0,
        b.view.frozen@ == a.view.frozen@.remove(0),
        b.view.active == a.view.active,
        tables_wf(b.view.version),
    ensures
        b.wf(),
        forall|seq: u64| #[trigger]
            view_bounded(a.view, seq) && version_bounded(b.view.version, seq) ==> view_bounded(
                b.view,
                seq,
            ),
{
    assert forall|i: int| 0 <= i < b.view.frozen@.len() implies (
    #[trigger] b.view.frozen@[i]).wf() by {
        assert(b.view.frozen@[i] == a.view.frozen@[i + 1]);
    }
    assert forall|seq: u64| #[trigger]
        view_bounded(a.view, seq) && version_bounded(b.view.version, seq) implies view_bounded(
        b.view,
        seq,
    ) by {
        assert forall|i: int| 0 <= i < b.view.frozen@.len() implies bounded(
            #[trigger] b.view.frozen@[i],
            seq,
        ) by {
            assert(b.view.frozen@[i] == a.view.frozen@[i + 1]);
        }
    }
}

proof fn lemma_added_tables(v: Version, w: Version, level: int, t: LiveSst)
    requires
        tables_wf(v),
        w.wf(),
        0 <= level < MAX_LEVELS,
        w@.levels == v@.levels.update(level, v@.levels[level].push(Arc::new(t))),
        t.wf(),
    ensures
        tables_wf(w),
        forall|seq: u64| #[trigger]
            version_bounded(v, seq) && table_bounded(t, seq) ==> version_bounded(w, seq),
{
    assert forall|l: int| 0 <= l < w.levels@.len() implies files_wf(
        (#[trigger] w.levels@[l])@,
    ) by {
        assert(w@.levels[l] == w.levels@[l]@);
        assert(files_wf(v.levels@[l]@));
        assert forall|i: int| 0 <= i < w.levels@[l]@.len() implies (
        #[trigger] w.levels@[l]@[i]).wf() by {
            if i < v.levels@[l]@.len() {
                assert(w.levels@[l]@[i] == v.levels@[l]@[i]);
            }
        }
    }
    assert forall|seq: u64| #[trigger]
        version_bounded(v, seq) && table_bounded(t, seq) implies version_bounded(w, seq) by {
        assert forall|l: int, i: int|
            0 <= l < w.levels@.len() && 0 <= i < w.levels@[l]@.len() implies table_bounded(
            *(#[trigger] w.levels@[l]@[i]),
            seq,
        ) by {
            assert(w@.levels[l] == w.levels@[l]@);
            if i < v.levels@[l]@.len() {
                assert(w.levels@[l]@[i] == v.levels@[l]@[i]);
                assert(table_bounded(*v.levels@[l]@[i], seq));
            }
        }
    }
}

// ── Tables from outside ──────────────────────────────────────────

impl LarkEngine {
    /// Check whether tables can be taken in now: `false` where there is none.
    /// `live_snapshot` says whether a snapshot is live.
    pub fn check_ingest(&self, files: usize, opts: &IngestOptions, live_snapshot: bool) -> (r:
        Result<bool, Error>)
        ensures
            ({
                let writable = self.state() == CloseState::Open && !self.opts().read_only;
                let pinned = files > 0 && opts.snapshot_consistency && live_snapshot;
                &&& r is Ok <==> writable && !pinned
                &&& r matches Ok(go) ==> go == (files > 0)
                &&& r matches Err(e) ==> e.kind == if self.state() != CloseState::Open {
                    ErrorKind::NotConnected
                } else if self.opts().read_only {
                    ErrorKind::PermissionDenied
                } else {
                    ErrorKind::Other
                }
            }),
    {
        match self.ensure_writable() {
            Ok(()) => {},
            Err(e) => return Err(e),
        }
        if files == 0 {
            return Ok(false);
        }
        if opts.snapshot_consistency && live_snapshot {
            return Err(
                Error::new(
                    ErrorKind::Other,
                    "ingest_external_files: snapshot isolation would be violated",
                ),
            );
        }
        Ok(true)
    }

    /// The level that a source with this range goes to.
    pub fn ingest_level(&self, smallest: &[u8], largest: &[u8], opts: &IngestOptions) -> (r: Result<
        usize,
        Error,
    >)
        requires
            self.wf(),
        ensures
            ({
                let meets = tree_meets(self.sources().version@.levels, smallest@, largest@);
                &&& r is Ok <==> !(opts.ingest_behind && meets)
                &&& r matches Ok(level) ==> level == if meets {
                    0
                } else {
                    MAX_LEVELS - 1
                }
                &&& r matches Err(e) ==> e.kind == ErrorKind::InvalidInput
            }),
    {
        compute_target_level(&self.view.version, smallest, largest, opts.ingest_behind)
    }

    /// Move the read horizon to a sequence number whose data is in place.
    pub fn publish(&mut self, seq: u64)
        requires
            seq <= old(self).latest(),
        ensures
            final(self).horizon() == if seq > old(self).horizon() {
                seq
            } else {
                old(self).horizon()
            },
            final(self).sources() == old(self).sources(),
            final(self).latest() == old(self).latest(),
            final(self).same_life(*old(self)),
            old(self).orderly() ==> final(self).orderly(),
    {
        self.visible_seq.publish(seq);
    }

    // ── Dropping everything ──────────────────────────────────────

    /// Start to drop all data: the id of the new log, which is made first, and
    /// the version without tables to append to the manifest. Logs before the
    /// new one bring nothing back.
    pub fn plan_drop_all(&self) -> (r: Result<Rotation, Error>)
        requires
            self.wf(),
            self.sources().version.next_file_id < u64::MAX,
        ensures
            r is Ok <==> self.state() == CloseState::Open && !self.opts().read_only,
            r matches Ok(x) ==> {
                &&& x.wal_id == self.sources().version.next_file_id
                &&& x.pending.version@ == (VersionView {
                    levels: empty_levels(),
                    last_seq: 0,
                    next_file_id: (x.wal_id + 1) as u64,
                    min_wal_id: x.wal_id,
                })
                &&& x.pending.records@ == frames(
                    seq![
                        super::manifest_record::RecordView::Reset {
                            next_file_id: (x.wal_id + 1) as u64,
                            min_wal_id: x.wal_id,
                        },
                    ],
                )
                &&& x.pending.sync
                &&& tables_wf(x.pending.version)
            },
            r matches Err(e) ==> e.kind == if self.state() != CloseState::Open {
                ErrorKind::NotConnected
            } else {
                ErrorKind::PermissionDenied
            },
    {
        match self.ensure_writable() {
            Ok(()) => {},
            Err(e) => return Err(e),
        }
        let wal_id: u64 = self.view.version.next_file_id;
        let mut edits: Vec<VersionEdit> = Vec::new();
        edits.push(VersionEdit::Reset { next_file_id: wal_id + 1, min_wal_id: wal_id });
        let ghost es = edits@;
        proof {
            assert(es.drop_last() =~= Seq::<VersionEdit>::empty());
            assert(!(es[0] is SetNextFileId));
            assert(edit_records(es) =~= seq![
                super::manifest_record::RecordView::Reset {
                    next_file_id: (wal_id + 1) as u64,
                    min_wal_id: wal_id,
                },
            ]);
            assert forall|i: int| 0 <= i < es.len() implies (#[trigger] es[i]).level_ok() by {}
        }
        match self.view.version.apply(&edits) {
            Ok(pending) => {
                proof {
                    let w = pending.version;
                    assert forall|l: int| 0 <= l < w.levels@.len() implies files_wf(
                        (#[trigger] w.levels@[l])@,
                    ) by {
                        assert(w@.levels[l] == w.levels@[l]@);
                    }
                }
                Ok(Rotation { wal_id, pending })
            },
            Err(e) => {
                assert(false);
                Err(e)
            },
        }
    }

    /// Drop all data: the memtables go, the tables with the pending version,
    /// and the sequence numbers start again.
    pub fn finish_drop_all(&mut self, reset: Rotation)
        requires
            old(self).wf(),
            tables_wf(reset.pending.version),
            reset.pending.version@.levels == empty_levels::<Arc<LiveSst>>(),
        ensures
            final(self).wf(),
            final(self).orderly(),
            final(self).drained(),
            final(self).sources().frozen@.len() == 0,
            final(self).sources().version == reset.pending.version,
            final(self).latest() == 0,
            final(self).horizon() == 0,
            final(self).log() == reset.wal_id,
            final(self).state() == old(self).state(),
            final(self).opts() == old(self).opts(),
            final(self).stall_cached() == old(self).stall_cached(),
    {
        self.view.active = MemTable::new();
        self.view.frozen = Vec::new();
        self.view.version = reset.pending.version;
        self.wal_id = reset.wal_id;
        self.latest_seq = 0;
        self.visible_seq.reset();
        proof {
            let w = self.view.version;
            assert forall|l: int, i: int|
                0 <= l < w.levels@.len() && 0 <= i < w.levels@[l]@.len() implies table_bounded(
                *(#[trigger] w.levels@[l]@[i]),
                0,
            ) by {
                assert(w@.levels[l] == w.levels@[l]@);
            }
            assert forall|l: int| 0 <= l < w.levels@.len() implies (#[trigger] w.levels@[l])@.len()
                == 0 by {
                assert(w@.levels[l] == w.levels@[l]@);
            }
            lemma_only_active_is_in_order(self.view);
        }
    }

    // ── Capturing ────────────────────────────────────────────────

    /// Capture the tables for a checkpoint or a backup, with a manifest that
    /// names them and nothing else. All data has to be in tables.
    pub fn checkpoint_capture(&self) -> (r: Result<CheckpointSnapshot, Error>)
        requires
            self.wf(),
            self.state() == CloseState::Open && !self.opts().read_only ==> self.drained()
                && self.sources().version@.state().recordable(),
        ensures
            r is Ok <==> self.state() == CloseState::Open && !self.opts().read_only,
            r matches Ok(s) ==> {
                &&& s.version@ == self.sources().version@
                &&& tables_wf(s.version)
                &&& s.manifest@ == frames(compact_records(self.sources().version@.state()))
            },
            r matches Err(e) ==> e.kind == if self.state() != CloseState::Open {
                ErrorKind::NotConnected
            } else {
                ErrorKind::PermissionDenied
            },
    {
        match self.ensure_writable() {
            Ok(()) => {},
            Err(e) => return Err(e),
        }
        let version = self.view.version.snapshot();
        let manifest = self.view.version.encode_compacted();
        proof {
            lemma_pending_tables(self.view.version, version);
        }
        Ok(CheckpointSnapshot { version, manifest })
    }

    // ── Compacting ───────────────────────────────────────────────

    /// What a compaction of `[start, end)` that a caller asks for does at a
    /// level, once the memtable has been flushed.
    pub fn compact_range(&self, level: usize, start: Option<&[u8]>, end: Option<&[u8]>) -> (r: Result<
        Option<CompactionJob>,
        Error,
    >)
        requires
            self.wf(),
            level + 1 < MAX_LEVELS,
            tables_size(self.sources().version.levels@[0]@) <= u64::MAX,
        ensures
            r is Ok <==> self.state() == CloseState::Open && !self.opts().read_only,
            r matches Ok(job) ==> is_range_job(
                self.sources().version,
                self.opts().compaction_style,
                self.opts().fifo_max_table_files_size,
                level as int,
                opt_bound(start),
                opt_bound(end),
                job,
            ),
            r matches Err(e) ==> e.kind == if self.state() != CloseState::Open {
                ErrorKind::NotConnected
            } else {
                ErrorKind::PermissionDenied
            },
    {
        match self.ensure_writable() {
            Ok(()) => {},
            Err(e) => return Err(e),
        }
        Ok(
            pick_range_job(
                &self.view.version,
                self.options.compaction_style,
                self.options.fifo_max_table_files_size,
                level,
                start,
                end,
            ),
        )
    }

    // ── Properties ───────────────────────────────────────────────

    /// Number of tables at a level; 0 where there is no such level.
    pub fn num_files_at_level(&self, level: usize) -> (r: u64)
        ensures
            r == if level < self.sources().version.levels@.len() {
                self.sources().version.levels@[level as int]@.len()
            } else {
                0
            },
    {
        if level < self.view.version.levels.len() {
            self.view.version.levels[level].len() as u64
        } else {
            0
        }
    }

    /// Total size of the tables at all levels.
    pub fn total_sst_size(&self) -> (r: u64)
        requires
            self.wf(),
            levels_size(self.sources().version@.levels, MAX_LEVELS as nat) <= u64::MAX,
        ensures
            r == levels_size(self.sources().version@.levels, MAX_LEVELS as nat),
    {
        let ghost ls = self.view.version@.levels;
        let mut total: u64 = 0;
        let mut level: usize = 0;
        while level < self.view.version.levels.len()
            invariant
                self.wf(),
                ls == self.view.version@.levels,
                level <= self.view.version.levels@.len(),
                levels_size(ls, MAX_LEVELS as nat) <= u64::MAX,
                total == levels_size(ls, level as nat),
            decreases self.view.version.levels@.len() - level,
        {
            proof {
                lemma_levels_size(ls, (level + 1) as nat, MAX_LEVELS as nat);
                assert(ls[level as int] == self.view.version.levels@[level as int]@);
            }
            total = total + self.view.version.level_size(level);
            level += 1;
        }
        total
    }

    /// Total number of entries in the tables at all levels.
    pub fn total_sst_num_entries(&self) -> (r: u64)
        requires
            self.wf(),
            levels_entries(self.sources().version@.levels, MAX_LEVELS as nat) <= u64::MAX,
        ensures
            r == levels_entries(self.sources().version@.levels, MAX_LEVELS as nat),
    {
        let ghost ls = self.view.version@.levels;
        let mut total: u64 = 0;
        let mut level: usize = 0;
        while level < self.view.version.levels.len()
            invariant
                self.wf(),
                ls == self.view.version@.levels,
                level <= self.view.version.levels@.len(),
                levels_entries(ls, MAX_LEVELS as nat) <= u64::MAX,
                total == levels_entries(ls, level as nat),
            decreases self.view.version.levels@.len() - level,
        {
            let files = &self.view.version.levels[level];
            let ghost before = total as nat;
            proof {
                lemma_levels_entries(ls, (level + 1) as nat, MAX_LEVELS as nat);
                assert(ls[level as int] == files@);
                assert(files@.take(0) =~= Seq::<Arc<LiveSst>>::empty());
            }
            let mut i: usize = 0;
            while i < files.len()
                invariant
                    i <= files@.len(),
                    before + tables_entries(files@) <= u64::MAX,
                    total == before + tables_entries(files@.take(i as int)),
                decreases files@.len() - i,
            {
                proof {
                    lemma_tables_entries_part(files@, i as int);
                    lemma_tables_entries_part(files@, i + 1);
                }
                total = total + files[i].meta.num_entries;
                i += 1;
            }
            assert(files@.take(i as int) =~= files@);
            level += 1;
        }
        total
    }

    /// Approximate size of the memtable.
    pub fn active_memtable_size(&self) -> (r: u64)
        ensures
            r == self.sources().active.charged(),
    {
        self.view.active.approximate_size() as u64
    }

    /// Approximate size of the sealed memtables together.
    pub fn frozen_memtables_size(&self) -> (r: u64)
        requires
            charged_sum(self.sources().frozen@) <= u64::MAX,
        ensures
            r == charged_sum(self.sources().frozen@),
    {
        let ghost fs = self.view.frozen@;
        let mut total: u64 = 0;
        let mut i: usize = 0;
        assert(fs.take(0) =~= Seq::<MemTable>::empty());
        while i < self.view.frozen.len()
            invariant
                fs == self.view.frozen@,
                i <= fs.len(),
                charged_sum(fs) <= u64::MAX,
                total == charged_sum(fs.take(i as int)),
            decreases fs.len() - i,
        {
            proof {
                lemma_charged_part(fs, i as int);
                lemma_charged_part(fs, i + 1);
            }
            total = total + self.view.frozen[i].approximate_size() as u64;
            i += 1;
        }
        assert(fs.take(i as int) =~= fs);
        total
    }

    /// Number and size of the memtable's entries with user keys in
    /// `[start, end)`.
    pub fn approximate_memtable_stats(&self, start: &[u8], end: &[u8]) -> (r: (u64, u64))
        requires
            self.wf(),
            self.sources().active.entries().len() <= u64::MAX,
            range_size(self.sources().active.entries(), start@, end@) <= u64::MAX,
        ensures
            r.0 == range_count(self.sources().active.entries(), start@, end@),
            r.1 == range_size(self.sources().active.entries(), start@, end@),
    {
        self.view.active.approximate_stats_for_range(start, end)
    }

    /// The tables whose range reaches into `[start, end)`, level by level: the
    /// ones to ask how many of their bytes lie in it.
    pub fn tables_in_range(&self, start: &[u8], end: &[u8]) -> (r: Vec<Arc<LiveSst>>)
        requires
            self.wf(),
        ensures
            r@ == if lex_lt(start@, end@) {
                levels_reaching(self.sources().version@.levels, MAX_LEVELS as nat, start@, end@)
            } else {
                Seq::empty()
            },
    {
        let mut r: Vec<Arc<LiveSst>> = Vec::new();
        if !bytes_lt(start, end) {
            return r;
        }
        let ghost ls = self.view.version@.levels;
        let mut level: usize = 0;
        while level < self.view.version.levels.len()
            invariant
                self.wf(),
                ls == self.view.version@.levels,
                level <= self.view.version.levels@.len(),
                r@ == levels_reaching(ls, level as nat, start@, end@),
            decreases self.view.version.levels@.len() - level,
        {
            let files = &self.view.version.levels[level];
            let ghost before = r@;
            assert(ls[level as int] == files@);
            assert(files@.take(0) =~= Seq::<Arc<LiveSst>>::empty());
            assert(before + tables_reaching(files@.take(0), start@, end@) =~= before);
            let mut i: usize = 0;
            while i < files.len()
                invariant
                    i <= files@.len(),
                    r@ == before + tables_reaching(files@.take(i as int), start@, end@),
                decreases files@.len() - i,
            {
                let ghost mid = r@;
                proof {
                    assert(files@.take(i + 1).drop_last() =~= files@.take(i as int));
                    assert(files@.take(i + 1).last() == files@[i as int]);
                }
                if !bytes_lt(files[i].meta.largest_key.as_slice(), start) && bytes_lt(
                    files[i].meta.smallest_key.as_slice(),
                    end,
                ) {
                    r.push(share(&files[i]));
                    assert(r@ =~= before + tables_reaching(files@.take(i + 1), start@, end@));
                }
                i += 1;
            }
            assert(files@.take(i as int) =~= files@);
            level += 1;
        }
        r
    }
}

/// What a checkpoint or a backup is made of: the tables of a version, and a
/// manifest that names them.
pub struct CheckpointSnapshot {
    pub version: Version,
    pub manifest: Vec<u8>,
}

/// The sum of the sizes of the tables of the first `n` levels.
pub open spec fn levels_size(levels: Seq<Seq<Arc<LiveSst>>>, n: nat) -> nat
    decreases n,
{
    if n == 0 {
        0
    } else {
        levels_size(levels, (n - 1) as nat) + tables_size(levels[n - 1])
    }
}

proof fn lemma_levels_size(levels: Seq<Seq<Arc<LiveSst>>>, n: nat, m: nat)
    requires
        n <= m,
    ensures
        levels_size(levels, n) <= levels_size(levels, m),
    decreases m,
{
    if n < m {
        lemma_levels_size(levels, n, (m - 1) as nat);
    }
}

/// How many entries tables have together.
pub open spec fn tables_entries(s: Seq<Arc<LiveSst>>) -> nat
    decreases s.len(),
{
    if s.len() == 0 {
        0
    } else {
        tables_entries(s.drop_last()) + s.last().meta.num_entries as nat
    }
}

proof fn lemma_tables_entries_part(s: Seq<Arc<LiveSst>>, n: int)
    requires
        0 <= n <= s.len(),
    ensures
        tables_entries(s.take(n)) <= tables_entries(s),
        n < s.len() ==> tables_entries(s.take(n + 1)) == tables_entries(s.take(n))
            + s[n].meta.num_entries,
    decreases s.len(),
{
    if n < s.len() {
        assert(s.take(n + 1).drop_last() =~= s.take(n));
        assert(s.drop_last().take(n) =~= s.take(n));
        lemma_tables_entries_part(s.drop_last(), n);
    } else {
        assert(s.take(n) =~= s);
    }
}

/// How many entries the tables of the first `n` levels have together.
pub open spec fn levels_entries(levels: Seq<Seq<Arc<LiveSst>>>, n: nat) -> nat
    decreases n,
{
    if n == 0 {
        0
    } else {
        levels_entries(levels, (n - 1) as nat) + tables_entries(levels[n - 1])
    }
}

proof fn lemma_levels_entries(levels: Seq<Seq<Arc<LiveSst>>>, n: nat, m: nat)
    requires
        n <= m,
    ensures
        levels_entries(levels, n) <= levels_entries(levels, m),
    decreases m,
{
    if n < m {
        lemma_levels_entries(levels, n, (m - 1) as nat);
    }
}

/// The bytes charged to memtables together.
pub open spec fn charged_sum(s: Seq<MemTable>) -> nat
    decreases s.len(),
{
    if s.len() == 0 {
        0
    } else {
        charged_sum(s.drop_last()) + s.last().charged() as nat
    }
}

proof fn lemma_charged_part(s: Seq<MemTable>, n: int)
    requires
        0 <= n <= s.len(),
    ensures
        charged_sum(s.take(n)) <= charged_sum(s),
        n < s.len() ==> charged_sum(s.take(n + 1)) == charged_sum(s.take(n)) + s[n].charged(),
    decreases s.len(),
{
    if n < s.len() {
        assert(s.take(n + 1).drop_last() =~= s.take(n));
        assert(s.drop_last().take(n) =~= s.take(n));
        lemma_charged_part(s.drop_last(), n);
    } else {
        assert(s.take(n) =~= s);
    }
}

/// The tables whose range reaches into `[start, end)`.
pub open spec fn tables_reaching(s: Seq<Arc<LiveSst>>, start: Seq<u8>, end: Seq<u8>) -> Seq<
    Arc<LiveSst>,
>
    decreases s.len(),
{
    if s.len() == 0 {
        s
    } else if !lex_lt(s.last().meta.largest_key@, start) && lex_lt(
        s.last().meta.smallest_key@,
        end,
    ) {
        tables_reaching(s.drop_last(), start, end).push(s.last())
    } else {
        tables_reaching(s.drop_last(), start, end)
    }
}

/// The tables of the first `n` levels whose range reaches into `[start, end)`.
pub open spec fn levels_reaching(
    levels: Seq<Seq<Arc<LiveSst>>>,
    n: nat,
    start: Seq<u8>,
    end: Seq<u8>,
) -> Seq<Arc<LiveSst>>
    decreases n,
{
    if n == 0 {
        Seq::empty()
    } else {
        levels_reaching(levels, (n - 1) as nat, start, end) + tables_reaching(
            levels[n - 1],
            start,
            end,
        )
    }
}

// ── What the statistics count ────────────────────────────────────

/// A table more counts once in the statistics: its bytes and its entries come on
/// top of what was there, and an empty tree has none of either.
pub proof fn lemma_totals_count_every_table(
    levels: Seq<Seq<Arc<LiveSst>>>,
    n: nat,
    l: int,
    t: Arc<LiveSst>,
)
    requires
        n <= levels.len(),
        0 <= l < levels.len(),
    ensures
        ({
            let more = levels.update(l, levels[l].push(t));
            &&& levels_size(more, n) == levels_size(levels, n) + if l < n {
                t.meta.file_size as int
            } else {
                0
            }
            &&& levels_entries(more, n) == levels_entries(levels, n) + if l < n {
                t.meta.num_entries as int
            } else {
                0
            }
        }),
        (forall|k: int| 0 <= k < n ==> (#[trigger] levels[k]).len() == 0) ==> levels_size(levels, n)
            == 0 && levels_entries(levels, n) == 0,
    decreases n,
{
    let more = levels.update(l, levels[l].push(t));
    if n > 0 {
        lemma_totals_count_every_table(levels, (n - 1) as nat, l, t);
        assert(levels[l].push(t).drop_last() =~= levels[l]);
        assert(levels[l].push(t).last() == t);
        assert(more[n - 1] == if l == n - 1 {
            levels[l].push(t)
        } else {
            levels[n - 1]
        });
        if forall|k: int| 0 <= k < n ==> (#[trigger] levels[k]).len() == 0 {
            assert(levels[n - 1].len() == 0);
        }
    }
}

/// A memtable more counts with what it is charged.
pub proof fn lemma_charges_add_up(s: Seq<MemTable>, m: MemTable)
    ensures
        charged_sum(s.push(m)) == charged_sum(s) + m.charged(),
        charged_sum(Seq::empty()) == 0,
{
    assert(s.push(m).drop_last() =~= s);
}

/// The tables of a range are those of the levels whose range holds a key from
/// its start on and one before its end.
pub proof fn lemma_tables_of_a_range_reach_into_it(
    levels: Seq<Seq<Arc<LiveSst>>>,
    n: nat,
    start: Seq<u8>,
    end: Seq<u8>,
    t: Arc<LiveSst>,
)
    requires
        n <= levels.len(),
    ensures
        levels_reaching(levels, n, start, end).contains(t) <==> {
            &&& exists|l: int| 0 <= l < n && #[trigger] levels[l].contains(t)
            &&& crate::bytes::lex_le(start, t.meta.largest_key@)
            &&& lex_lt(t.meta.smallest_key@, end)
        },
    decreases n,
{
    if n > 0 {
        let a = levels_reaching(levels, (n - 1) as nat, start, end);
        let b = tables_reaching(levels[n - 1], start, end);
        lemma_tables_of_a_range_reach_into_it(levels, (n - 1) as nat, start, end, t);
        lemma_tables_reaching(levels[n - 1], start, end, t);
        if a.contains(t) {
            let i = choose|i: int| 0 <= i < a.len() && a[i] == t;
            assert((a + b)[i] == t);
        }
        if b.contains(t) {
            let i = choose|i: int| 0 <= i < b.len() && b[i] == t;
            assert((a + b)[a.len() + i] == t);
        }
        if (a + b).contains(t) {
            let i = choose|i: int| 0 <= i < (a + b).len() && (a + b)[i] == t;
            if i < a.len() {
                assert(a[i] == t);
            } else {
                assert(b[i - a.len()] == t);
            }
        }
        if exists|l: int| 0 <= l < n && #[trigger] levels[l].contains(t) {
            let l = choose|l: int| 0 <= l < n && #[trigger] levels[l].contains(t);
            assert(l == n - 1 || 0 <= l < n - 1);
        }
    }
}

proof fn lemma_tables_reaching(s: Seq<Arc<LiveSst>>, start: Seq<u8>, end: Seq<u8>, t: Arc<LiveSst>)
    ensures
        tables_reaching(s, start, end).contains(t) <==> s.contains(t) && crate::bytes::lex_le(
            start,
            t.meta.largest_key@,
        ) && lex_lt(t.meta.smallest_key@, end),
    decreases s.len(),
{
    if s.len() > 0 {
        let d = s.drop_last();
        let r = tables_reaching(d, start, end);
        lemma_tables_reaching(d, start, end, t);
        let last = s.last();
        crate::bytes::lemma_lex_order(start, last.meta.largest_key@, start);
        crate::bytes::lemma_lex_order(last.meta.largest_key@, start, start);
        assert(s[s.len() - 1] == last);
        if s.contains(t) {
            let i = choose|i: int| 0 <= i < s.len() && s[i] == t;
            if i < d.len() {
                assert(d[i] == t);
            }
        }
        if d.contains(t) {
            let i = choose|i: int| 0 <= i < d.len() && d[i] == t;
            assert(s[i] == t);
        }
        let w = r.push(last);
        if r.contains(t) {
            let i = choose|i: int| 0 <= i < r.len() && r[i] == t;
            assert(w[i] == t);
        }
        assert(w[r.len() as int] == last);
        if w.contains(t) {
            let i = choose|i: int| 0 <= i < w.len() && w[i] == t;
            if i < r.len() {
                assert(r[i] == t);
            }
        }
    }
}

/// An engine holds writers up by its tables at level 0, by its memtables, the
/// one that is written to among them, and by the bytes of the tables at level 0.
pub proof fn lemma_an_engine_stalls_at_its_limits(e: LarkEngine)
    ensures
        ({
            let l0 = e.sources().version.levels@[0]@;
            let memtables = e.sources().frozen@.len() as int + 1;
            let bytes = super::pick_laws::bytes_of(l0);
            let stop = super::options::must_stop(
                e.opts().stalls,
                l0.len() as int,
                memtables,
                bytes,
            );
            let slow = super::options::must_slow(
                e.opts().stalls,
                l0.len() as int,
                memtables,
                bytes,
            );
            &&& e.stalled() is None <==> !stop && !slow
            &&& e.stalled() is Some && e.stalled()->0.stop <==> stop
        }),
{
    let l0 = e.sources().version.levels@[0]@;
    super::pick_laws::lemma_tables_size_is_sum(l0);
    super::options::lemma_stalls_at_the_limits(
        e.opts().stalls,
        l0.len(),
        (e.sources().frozen@.len() + 1) as nat,
        tables_size(l0),
    );
}

} // verus!
