//! Checkpoints of a database.
//!
//! A checkpoint is a directory with the tables of one version and a manifest
//! that names them. It can be opened as a database of its own.

use crate::engine::copy_laws::is_drain;
use crate::engine::copy_laws::lemma_copy_reads_as_its_source;
use crate::engine::copy_laws::lemma_draining_changes_no_read;
use crate::engine::copy_laws::read_the_same;
use crate::engine::copy_laws::same_files;
use crate::engine::lark_engine::holds_data;
use crate::engine::lark_engine::CloseState;
use crate::engine::lark_engine::LarkEngine;
use crate::engine::manifest::compact_records;
use crate::engine::manifest::initial_state;
use crate::engine::manifest::lemma_compact_manifest_replays;
use crate::engine::manifest::lemma_replay_reads_what_was_written;
use crate::engine::manifest::replay;
use crate::engine::manifest::table_metas;
use crate::engine::manifest::ManifestState;
use crate::engine::manifest::Replayed;
use crate::engine::manifest::Version;
use crate::engine::manifest_record::frames;
use crate::engine::manifest_record::MAX_LEVELS;
use crate::engine::read_view::ReadView;
use crate::engine::sstable::MetaView;
use crate::error::Error;
use crate::error::ErrorKind;
use vstd::prelude::*;

verus! {

/// A database prepared for a checkpoint. The handle captures nothing by
/// itself.
pub struct Checkpoint<'db> {
    db: &'db LarkEngine,
}

/// What to do to make a checkpoint.
pub struct CheckpointPlan {
    /// The ids of the tables to link or copy, level by level.
    pub files: Vec<u64>,
    /// The bytes of the checkpoint's manifest.
    pub manifest: Vec<u8>,
}

/// The ids of tables.
pub open spec fn meta_ids(metas: Seq<MetaView>) -> Seq<u64> {
    metas.map_values(|m: MetaView| m.file_id)
}

/// The ids of the tables of the first `n` levels.
pub open spec fn table_ids(levels: Seq<Seq<MetaView>>, n: nat) -> Seq<u64>
    decreases n,
{
    if n == 0 {
        Seq::empty()
    } else {
        table_ids(levels, (n - 1) as nat) + meta_ids(levels[n - 1])
    }
}

/// The ids of the tables of a version, level by level.
fn collect_ids(version: &Version) -> (r: Vec<u64>)
    requires
        version.wf(),
    ensures
        r@ == table_ids(version@.state().levels, MAX_LEVELS as nat),
{
    let ghost ls = version@.state().levels;
    let mut r: Vec<u64> = Vec::new();
    let mut level: usize = 0;
    while level < version.levels.len()
        invariant
            version.wf(),
            ls == version@.state().levels,
            level <= version.levels@.len(),
            r@ == table_ids(ls, level as nat),
        decreases version.levels@.len() - level,
    {
        let files = &version.levels[level];
        let ghost before = r@;
        let ghost ids = meta_ids(ls[level as int]);
        proof {
            assert(ls[level as int] =~= table_metas(files@));
            assert(before + ids.take(0) =~= before);
        }
        let mut i: usize = 0;
        while i < files.len()
            invariant
                i <= files@.len(),
                ids == meta_ids(table_metas(files@)),
                r@ == before + ids.take(i as int),
            decreases files@.len() - i,
        {
            r.push(files[i].meta.file_id);
            proof {
                assert(ids[i as int] == files@[i as int].meta.file_id);
                assert(ids.take(i + 1) =~= ids.take(i as int).push(ids[i as int]));
                assert(r@ =~= before + ids.take(i + 1));
            }
            i += 1;
        }
        assert(ids.take(i as int) =~= ids);
        level += 1;
    }
    r
}

/// Refuse a target directory whose `sst/` holds entries.
pub fn check_target(existing: usize) -> (r: Result<(), Error>)
    ensures
        r is Ok <==> existing == 0,
        r matches Err(e) ==> e.kind == ErrorKind::AlreadyExists,
{
    if existing > 0 {
        return Err(
            Error::new(
                ErrorKind::AlreadyExists,
                "checkpoint target sst directory is not empty",
            ),
        );
    }
    Ok(())
}

impl<'db> Checkpoint<'db> {
    /// The database.
    pub closed spec fn database(&self) -> LarkEngine {
        *self.db
    }

    /// Prepare a checkpoint of a database.
    pub fn new(db: &'db LarkEngine) -> (r: Result<Self, Error>)
        ensures
            r matches Ok(c) && c.database() == *db,
    {
        Ok(Checkpoint { db })
    }

    /// Make the checkpoint in a directory whose `sst/` holds `existing`
    /// entries. All data has to be in tables; a target that is not empty is
    /// refused. The tables and the manifest are of one version, so whatever is
    /// flushed or compacted meanwhile is in neither.
    pub fn create(&self, existing: usize) -> (r: Result<CheckpointPlan, Error>)
        requires
            self.database().wf(),
            existing == 0 && self.database().state() == CloseState::Open
                && !self.database().opts().read_only ==> self.database().drained()
                && self.database().sources().version@.state().recordable(),
        ensures
            r is Ok <==> existing == 0 && self.database().state() == CloseState::Open
                && !self.database().opts().read_only,
            r matches Ok(p) ==> p.files@ == table_ids(
                self.database().sources().version@.state().levels,
                MAX_LEVELS as nat,
            ) && p.manifest@ == frames(
                compact_records(self.database().sources().version@.state()),
            ),
            r matches Err(e) ==> e.kind == if existing > 0 {
                ErrorKind::AlreadyExists
            } else if self.database().state() != CloseState::Open {
                ErrorKind::NotConnected
            } else {
                ErrorKind::PermissionDenied
            },
    {
        match check_target(existing) {
            Ok(()) => {},
            Err(e) => return Err(e),
        }
        let snapshot = match self.db.checkpoint_capture() {
            Ok(s) => s,
            Err(e) => return Err(e),
        };
        let files = collect_ids(&snapshot.version);
        Ok(CheckpointPlan { files, manifest: snapshot.manifest })
    }
}

/// Opening a checkpoint replays its manifest to the version that was captured:
/// it names the tables that were linked, and no others.
pub proof fn lemma_checkpoint_names_its_tables(st: ManifestState)
    requires
        st.levels.len() == MAX_LEVELS,
        st.recordable(),
    ensures
        replay(initial_state(), frames(compact_records(st)), 0) == Replayed::Done(
            st,
            frames(compact_records(st)).len(),
        ),
{
    lemma_replay_reads_what_was_written(compact_records(st));
    lemma_compact_manifest_replays(st);
}

/// A database opened on a checkpoint reads as its source did, at every
/// snapshot, with and without a merge operator. `vs` is what the source went
/// through from the call on, when writes may have been in memtables alone, to
/// the capture, when all data was in tables; `v1` is what was opened on the
/// manifest that [`Checkpoint::create`] gives, with no logs.
pub proof fn lemma_checkpoint_reads_as_its_source(
    vs: Seq<ReadView>,
    v1: ReadView,
    key: Seq<u8>,
    snapshot_seq: u64,
)
    requires
        is_drain(vs),
        v1.wf(),
        vs.last().version@.state().recordable(),
        replay(initial_state(), frames(compact_records(vs.last().version@.state())), 0)
            == Replayed::Done(
            v1.version@.state(),
            frames(compact_records(vs.last().version@.state())).len(),
        ),
        same_files(vs.last().version, v1.version),
        !holds_data(v1.active),
        v1.frozen@.len() == 0,
    ensures
        read_the_same(vs[0], v1, key, snapshot_seq),
        v1.version@.state() == vs.last().version@.state(),
{
    let v0 = vs.last();
    let st = v0.version@.state();
    lemma_draining_changes_no_read(vs, vs.len() - 1, key, snapshot_seq);
    assert(st.levels.len() == v0.version.levels@.len());
    lemma_checkpoint_names_its_tables(st);
    lemma_copy_reads_as_its_source(v0, v1, key, snapshot_seq);
}

} // verus!
