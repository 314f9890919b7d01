//! Versions of the tree, and the log of edits that leads from one to the next.

use super::manifest_record::encode_records;
use super::manifest_record::frame;
use super::manifest_record::frame_ok;
use super::manifest_record::frame_payload;
use super::manifest_record::frames;
use super::manifest_record::front;
use super::manifest_record::lemma_frame_round_trip;
use super::manifest_record::lemma_front_len;
use super::manifest_record::lemma_record_round_trip;
use super::manifest_record::lemma_torn_frame;
use super::manifest_record::read_frame;
use super::manifest_record::record_views;
use super::manifest_record::validate_level_index;
use super::manifest_record::Front;
use super::manifest_record::ManifestRecord;
use super::manifest_record::RecordView;
use super::manifest_record::MAX_LEVELS;
use super::sstable::share;
use super::sstable::LiveSst;
use super::sstable::MetaView;
use super::sstable::SsTableMeta;
use crate::error::Error;
use crate::error::ErrorKind;
use std::sync::Arc;
use vstd::prelude::*;

verus! {

// ── What records do to the state ─────────────────────────────────

/// What the manifest says of the tree.
#[verifier::ext_equal]
pub struct ManifestState {
    pub levels: Seq<Seq<MetaView>>,
    pub last_seq: u64,
    pub next_file_id: u64,
    pub min_wal_id: u64,
}

/// Levels without tables.
pub open spec fn empty_levels<T>() -> Seq<Seq<T>> {
    Seq::new(MAX_LEVELS as nat, |i: int| Seq::<T>::empty())
}

/// The state before any record.
pub open spec fn initial_state() -> ManifestState {
    ManifestState { levels: empty_levels(), last_seq: 0, next_file_id: 1, min_wal_id: 0 }
}

/// The tables with another id than `file_id`.
pub open spec fn without_meta(s: Seq<MetaView>, file_id: u64) -> Seq<MetaView>
    decreases s.len(),
{
    if s.len() == 0 {
        s
    } else if s.last().file_id == file_id {
        without_meta(s.drop_last(), file_id)
    } else {
        without_meta(s.drop_last(), file_id).push(s.last())
    }
}

/// The state after a record.
pub open spec fn step(st: ManifestState, r: RecordView) -> ManifestState {
    match r {
        RecordView::AddFile { level, meta } => ManifestState {
            levels: st.levels.update(level as int, st.levels[level as int].push(meta)),
            ..st
        },
        RecordView::RemoveFile { level, file_id } => ManifestState {
            levels: st.levels.update(
                level as int,
                without_meta(st.levels[level as int], file_id),
            ),
            ..st
        },
        RecordView::SetLastSeq(x) => ManifestState { last_seq: x, ..st },
        RecordView::SetNextFileId(x) => ManifestState { next_file_id: x, ..st },
        RecordView::SetMinWalId(x) => ManifestState { min_wal_id: x, ..st },
        RecordView::Reset { next_file_id, min_wal_id } => ManifestState {
            levels: empty_levels(),
            last_seq: 0,
            next_file_id,
            min_wal_id,
        },
    }
}

/// The state after a list of records.
pub open spec fn run(st: ManifestState, rs: Seq<RecordView>) -> ManifestState
    decreases rs.len(),
{
    if rs.len() == 0 {
        st
    } else {
        step(run(st, rs.drop_last()), rs.last())
    }
}

/// One list of records after another.
pub proof fn lemma_run_concat(st: ManifestState, a: Seq<RecordView>, b: Seq<RecordView>)
    ensures
        run(st, a + b) == run(run(st, a), b),
    decreases b.len(),
{
    if b.len() == 0 {
        assert(a + b =~= a);
    } else {
        assert((a + b).drop_last() =~= a + b.drop_last());
        lemma_run_concat(st, a, b.drop_last());
    }
}

// ── Replay ───────────────────────────────────────────────────────

/// The records of a payload, or what is wrong with it.
#[verifier::ext_equal]
pub enum Decoded {
    Records(Seq<RecordView>),
    Bad(ErrorKind),
}

/// The records that a payload is made of.
pub open spec fn decode_all(s: Seq<u8>) -> Decoded
    decreases s.len(),
{
    match front(s) {
        Front::End => Decoded::Records(Seq::empty()),
        Front::Bad(k) => Decoded::Bad(k),
        Front::Record(r, n) => if 0 < n <= s.len() {
            match decode_all(s.skip(n as int)) {
                Decoded::Records(rest) => Decoded::Records(seq![r] + rest),
                Decoded::Bad(k) => Decoded::Bad(k),
            }
        } else {
            Decoded::Bad(ErrorKind::InvalidData)
        },
    }
}

/// The outcome of a replay: the state and how much of the manifest is valid,
/// or what is wrong with a record whose checksum holds.
#[verifier::ext_equal]
pub enum Replayed {
    Done(ManifestState, nat),
    Bad(ErrorKind),
}

/// Replay `s`, which stands `base` bytes into the manifest, from the state
/// `st`. The replay stops where no whole frame with a valid checksum stands.
pub open spec fn replay(st: ManifestState, s: Seq<u8>, base: nat) -> Replayed
    decreases s.len(),
{
    if !frame_ok(s) {
        Replayed::Done(st, base)
    } else {
        match decode_all(frame_payload(s)) {
            Decoded::Bad(k) => Replayed::Bad(k),
            Decoded::Records(rs) => replay(
                run(st, rs),
                s.skip(8 + frame_payload(s).len() as int),
                base + 8 + frame_payload(s).len(),
            ),
        }
    }
}

/// A state with its tables not opened yet.
pub struct ManifestReplay {
    pub levels: Vec<Vec<SsTableMeta>>,
    pub last_seq: u64,
    pub next_file_id: u64,
    pub min_wal_id: u64,
    /// How many bytes of the manifest were replayed; what follows is the
    /// remains of a write that did not finish.
    pub valid_len: usize,
}

/// What the tables' metadata says.
pub open spec fn meta_views(s: Seq<SsTableMeta>) -> Seq<MetaView> {
    s.map_values(|m: SsTableMeta| m@)
}

impl ManifestReplay {
    /// The state.
    pub open spec fn state(&self) -> ManifestState {
        ManifestState {
            levels: self.levels@.map_values(|l: Vec<SsTableMeta>| meta_views(l@)),
            last_seq: self.last_seq,
            next_file_id: self.next_file_id,
            min_wal_id: self.min_wal_id,
        }
    }

    fn initial() -> (r: Self)
        ensures
            r.state() == initial_state(),
            r.levels@.len() == MAX_LEVELS,
            r.valid_len == 0,
    {
        let r = ManifestReplay {
            levels: no_metas(),
            last_seq: 0,
            next_file_id: 1,
            min_wal_id: 0,
            valid_len: 0,
        };
        assert(r.state().levels =~~= initial_state().levels);
        r
    }

    /// Do what a record says.
    fn apply(&mut self, record: ManifestRecord)
        requires
            old(self).levels@.len() == MAX_LEVELS,
            record@ matches RecordView::AddFile { level, .. } ==> level < MAX_LEVELS,
            record@ matches RecordView::RemoveFile { level, .. } ==> level < MAX_LEVELS,
        ensures
            final(self).levels@.len() == MAX_LEVELS,
            final(self).state() == step(old(self).state(), record@),
            final(self).valid_len == old(self).valid_len,
    {
        let ghost before = self.state();
        let ghost rv = record@;
        match record {
            ManifestRecord::AddFile { level, meta } => {
                let ghost mv = meta@;
                let ghost l0 = self.levels@[level as int]@;
                self.levels[level].push(meta);
                proof {
                    assert(meta_views(self.levels@[level as int]@) =~= meta_views(l0).push(mv));
                    assert(self.state().levels =~= step(before, rv).levels);
                }
            },
            ManifestRecord::RemoveFile { level, file_id } => {
                drop_metas(&mut self.levels[level], file_id);
                assert(self.state().levels =~= step(before, rv).levels);
            },
            ManifestRecord::SetLastSeq(seq) => {
                self.last_seq = seq;
            },
            ManifestRecord::SetNextFileId(id) => {
                self.next_file_id = id;
            },
            ManifestRecord::SetMinWalId(id) => {
                self.min_wal_id = id;
            },
            ManifestRecord::Reset { next_file_id, min_wal_id } => {
                self.levels = no_metas();
                self.last_seq = 0;
                self.next_file_id = next_file_id;
                self.min_wal_id = min_wal_id;
                assert(self.state().levels =~~= step(before, rv).levels);
            },
        }
    }
}

fn no_metas() -> (r: Vec<Vec<SsTableMeta>>)
    ensures
        r@.len() == MAX_LEVELS,
        forall|i: int| 0 <= i < MAX_LEVELS ==> (#[trigger] r@[i])@ == Seq::<SsTableMeta>::empty(),
{
    let mut r: Vec<Vec<SsTableMeta>> = Vec::new();
    while r.len() < MAX_LEVELS
        invariant
            r@.len() <= MAX_LEVELS,
            forall|i: int|
                0 <= i < r@.len() ==> (#[trigger] r@[i])@ == Seq::<SsTableMeta>::empty(),
        decreases MAX_LEVELS - r@.len(),
    {
        r.push(Vec::new());
    }
    r
}

/// Remove the tables with this id.
fn drop_metas(v: &mut Vec<SsTableMeta>, file_id: u64)
    ensures
        meta_views(final(v)@) == without_meta(meta_views(old(v)@), file_id),
{
    let mut i: usize = 0;
    let ghost all = meta_views(v@);
    let ghost mut done: int = 0;
    assert(all.take(0) =~= Seq::<MetaView>::empty());
    assert(all.skip(0) =~= all);
    assert(meta_views(v@).take(0) =~= Seq::<MetaView>::empty());
    assert(meta_views(v@).skip(0) =~= all);
    while i < v.len()
        invariant
            0 <= done <= all.len(),
            i <= v@.len(),
            all.len() - done == v@.len() - i,
            meta_views(v@).take(i as int) == without_meta(all.take(done), file_id),
            meta_views(v@).skip(i as int) == all.skip(done),
        decreases v@.len() - i,
    {
        let ghost before = meta_views(v@);
        proof {
            assert(all.take(done + 1).drop_last() =~= all.take(done));
            assert(before.skip(i as int)[0] == before[i as int]);
            assert(all.skip(done)[0] == all[done]);
        }
        if v[i].file_id == file_id {
            let _ = v.remove(i);
            proof {
                assert(meta_views(v@) =~= before.remove(i as int));
                assert(meta_views(v@).take(i as int) =~= before.take(i as int));
                assert(meta_views(v@).skip(i as int) =~= before.skip(i as int).skip(1));
                assert(all.skip(done).skip(1) =~= all.skip(done + 1));
            }
        } else {
            proof {
                assert(before.take(i + 1) =~= before.take(i as int).push(before[i as int]));
                assert(before.skip(i + 1) =~= before.skip(i as int).skip(1));
                assert(all.skip(done).skip(1) =~= all.skip(done + 1));
            }
            i += 1;
        }
        proof {
            done = done + 1;
        }
    }
    proof {
        assert(all.take(done) =~= all);
        assert(meta_views(v@).take(i as int) =~= meta_views(v@));
    }
}

/// Replay a manifest. A torn or damaged tail is left out; a record whose
/// checksum holds and which cannot be read is an error.
pub fn replay_manifest(data: &[u8]) -> (r: Result<ManifestReplay, Error>)
    ensures
        match replay(initial_state(), data@, 0) {
            Replayed::Done(st, n) => r matches Ok(x) && x.state() == st && x.valid_len == n
                && x.levels@.len() == MAX_LEVELS && n <= data@.len(),
            Replayed::Bad(k) => r matches Err(e) && e.kind == k,
        },
{
    let mut out = ManifestReplay::initial();
    let mut offset: usize = 0;
    assert(data@.skip(0) =~= data@);
    loop
        invariant
            offset <= data@.len(),
            out.valid_len == offset,
            out.levels@.len() == MAX_LEVELS,
            replay(initial_state(), data@, 0) == replay(
                out.state(),
                data@.skip(offset as int),
                offset as nat,
            ),
        decreases data@.len() - offset,
    {
        let ghost s = data@.skip(offset as int);
        let payload = match read_frame(data, offset) {
            Some(p) => p,
            None => {
                return Ok(out);
            },
        };
        let n: usize = payload.len();
        let len: usize = data.len();
        let mut pos: usize = 0;
        let ghost st0 = out.state();
        let ghost whole = decode_all(payload@);
        let ghost mut done: Seq<RecordView> = Seq::empty();
        proof {
            assert(payload@.skip(0) =~= payload@);
            if let Decoded::Records(rs) = whole {
                assert(done + rs =~= rs);
            }
        }
        loop
            invariant
                pos <= payload@.len(),
                out.levels@.len() == MAX_LEVELS,
                out.valid_len == offset,
                out.state() == run(st0, done),
                whole == match decode_all(payload@.skip(pos as int)) {
                    Decoded::Records(rest) => Decoded::Records(done + rest),
                    Decoded::Bad(k) => Decoded::Bad(k),
                },
                whole == decode_all(payload@),
                payload@ == frame_payload(s),
                frame_ok(s),
                replay(initial_state(), data@, 0) == replay(st0, s, offset as nat),
            ensures
                out.levels@.len() == MAX_LEVELS,
                out.valid_len == offset,
                whole == Decoded::Records(done),
                out.state() == run(st0, done),
            decreases payload@.len() - pos,
        {
            let ghost t = payload@.skip(pos as int);
            let ghost p0 = pos as int;
            proof {
                lemma_front_len(t);
            }
            match ManifestRecord::decode(payload, &mut pos) {
                Err(e) => {
                    return Err(e);
                },
                Ok(None) => {
                    assert(done + Seq::<RecordView>::empty() =~= done);
                    break;
                },
                Ok(Some(record)) => {
                    proof {
                        let rv = record@;
                        let m = pos - p0;
                        assert(t.skip(m) =~= payload@.skip(pos as int));
                        assert(done.push(rv).drop_last() =~= done);
                        if let Decoded::Records(rest) = decode_all(payload@.skip(pos as int)) {
                            assert(done + (seq![rv] + rest) =~= done.push(rv) + rest);
                        }
                        done = done.push(rv);
                    }
                    out.apply(record);
                },
            }
        }
        offset = offset + 8 + n;
        out.valid_len = offset;
        assert(s.skip(8 + n) =~= data@.skip(offset as int));
    }
}

// ── Laws of replay ───────────────────────────────────────────────

/// Replaying the frames of records, and then `tail`, does what the records say
/// and then replays the tail.
#[verifier::spinoff_prover]
#[verifier::rlimit(40)]
pub proof fn lemma_replay_frames(
    st: ManifestState,
    rs: Seq<RecordView>,
    tail: Seq<u8>,
    base: nat,
)
    requires
        forall|i: int| 0 <= i < rs.len() ==> (#[trigger] rs[i]).ok(),
    ensures
        replay(st, frames(rs) + tail, base) == replay(
            run(st, rs),
            tail,
            base + frames(rs).len(),
        ),
    decreases rs.len(),
{
    if rs.len() == 0 {
        assert(frames(rs) + tail =~= tail);
    } else {
        let r = rs.last();
        let front_rs = rs.drop_last();
        let f = frame(r.bytes());
        assert(rs[rs.len() - 1].ok());
        assert forall|i: int| 0 <= i < front_rs.len() implies (#[trigger] front_rs[i]).ok() by {
            assert(front_rs[i] == rs[i]);
        }
        assert(frames(rs) + tail =~= frames(front_rs) + (f + tail));
        lemma_replay_frames(st, front_rs, f + tail, base);
        lemma_record_round_trip(r, Seq::empty());
        assert(r.bytes() + Seq::<u8>::empty() =~= r.bytes());
        lemma_frame_round_trip(r.bytes(), tail);
        assert(r.bytes().skip(r.bytes().len() as int) =~= Seq::<u8>::empty());
        assert(decode_all(Seq::<u8>::empty()) == Decoded::Records(Seq::empty()));
        assert(decode_all(r.bytes()) == Decoded::Records(seq![r]));
        assert((f + tail).skip(8 + r.bytes().len() as int) =~= tail);
        let st1 = run(st, front_rs);
        assert(run(st1, seq![r]) == step(st1, r)) by {
            assert(seq![r].drop_last() =~= Seq::<RecordView>::empty());
            assert(run(st1, Seq::<RecordView>::empty()) == st1);
        }
    }
}

/// What is written to the manifest is what a later replay finds: the state
/// that the records lead to, and all of the manifest valid.
pub proof fn lemma_replay_reads_what_was_written(rs: Seq<RecordView>)
    requires
        forall|i: int| 0 <= i < rs.len() ==> (#[trigger] rs[i]).ok(),
    ensures
        replay(initial_state(), frames(rs), 0) == Replayed::Done(
            run(initial_state(), rs),
            frames(rs).len(),
        ),
{
    lemma_replay_frames(initial_state(), rs, Seq::empty(), 0);
    assert(frames(rs) + Seq::<u8>::empty() =~= frames(rs));
}

/// A crash in the middle of writing a record loses that record and nothing
/// else: the replay finds the state of the records before it, and says where
/// they end.
pub proof fn lemma_replay_drops_torn_tail(rs: Seq<RecordView>, last: RecordView, n: int)
    requires
        forall|i: int| 0 <= i < rs.len() ==> (#[trigger] rs[i]).ok(),
        last.ok(),
        0 <= n < frame(last.bytes()).len(),
    ensures
        replay(initial_state(), frames(rs) + frame(last.bytes()).take(n), 0) == Replayed::Done(
            run(initial_state(), rs),
            frames(rs).len(),
        ),
{
    lemma_record_round_trip(last, Seq::empty());
    lemma_replay_frames(initial_state(), rs, frame(last.bytes()).take(n), 0);
    lemma_torn_frame(last.bytes(), n);
}

// ── Versions ─────────────────────────────────────────────────────

/// What a version says.
#[verifier::ext_equal]
pub struct VersionView {
    pub levels: Seq<Seq<Arc<LiveSst>>>,
    pub last_seq: u64,
    pub next_file_id: u64,
    pub min_wal_id: u64,
}

/// The metadata of tables.
pub open spec fn table_metas(s: Seq<Arc<LiveSst>>) -> Seq<MetaView> {
    s.map_values(|t: Arc<LiveSst>| t.meta@)
}

impl VersionView {
    /// What the manifest says of the version.
    pub open spec fn state(self) -> ManifestState {
        ManifestState {
            levels: self.levels.map_values(|l: Seq<Arc<LiveSst>>| table_metas(l)),
            last_seq: self.last_seq,
            next_file_id: self.next_file_id,
            min_wal_id: self.min_wal_id,
        }
    }
}

/// A snapshot of which tables exist at each level.
pub struct Version {
    pub levels: Vec<Vec<Arc<LiveSst>>>,
    pub next_file_id: u64,
    pub last_seq: u64,
    pub min_wal_id: u64,
}

impl View for Version {
    type V = VersionView;

    open spec fn view(&self) -> VersionView {
        VersionView {
            levels: self.levels@.map_values(|l: Vec<Arc<LiveSst>>| l@),
            last_seq: self.last_seq,
            next_file_id: self.next_file_id,
            min_wal_id: self.min_wal_id,
        }
    }
}

/// The sum of the sizes of tables.
pub open spec fn tables_size(s: Seq<Arc<LiveSst>>) -> nat
    decreases s.len(),
{
    if s.len() == 0 {
        0
    } else {
        tables_size(s.drop_last()) + s.last().meta.file_size as nat
    }
}

/// A part of the tables is no larger than all of them.
pub proof fn lemma_tables_size_part(s: Seq<Arc<LiveSst>>, n: int)
    requires
        0 <= n <= s.len(),
    ensures
        tables_size(s.take(n)) <= tables_size(s),
        n < s.len() ==> tables_size(s.take(n + 1)) == tables_size(s.take(n))
            + s[n].meta.file_size,
    decreases s.len(),
{
    if n < s.len() {
        assert(s.take(n + 1).drop_last() =~= s.take(n));
        assert(s.drop_last().take(n) =~= s.take(n));
        lemma_tables_size_part(s.drop_last(), n);
    } else {
        assert(s.take(n) =~= s);
    }
}

impl Version {
    /// The version has all levels.
    pub open spec fn wf(&self) -> bool {
        self.levels@.len() == MAX_LEVELS
    }

    /// A version without tables.
    pub fn new() -> (r: Self)
        ensures
            r.wf(),
            r@.levels == empty_levels::<Arc<LiveSst>>(),
            r.next_file_id == 1,
            r.last_seq == 0,
            r.min_wal_id == 0,
            r@.state() == initial_state(),
    {
        let r = Version { levels: no_tables(), next_file_id: 1, last_seq: 0, min_wal_id: 0 };
        assert(r@.levels =~= empty_levels::<Arc<LiveSst>>());
        assert(r@.state().levels =~~= initial_state().levels);
        r
    }

    /// Number of tables at level 0.
    pub fn l0_count(&self) -> (r: usize)
        requires
            self.wf(),
        ensures
            r == self.levels@[0]@.len(),
    {
        self.levels[0].len()
    }

    /// Total size of the tables at a level.
    pub fn level_size(&self, level: usize) -> (r: u64)
        requires
            level < self.levels@.len(),
            tables_size(self.levels@[level as int]@) <= u64::MAX,
        ensures
            r == tables_size(self.levels@[level as int]@),
    {
        let files = &self.levels[level];
        let mut total: u64 = 0;
        let mut i: usize = 0;
        assert(files@.take(0) =~= Seq::<Arc<LiveSst>>::empty());
        while i < files.len()
            invariant
                i <= files@.len(),
                tables_size(files@) <= u64::MAX,
                total == tables_size(files@.take(i as int)),
            decreases files@.len() - i,
        {
            proof {
                lemma_tables_size_part(files@, i as int);
                lemma_tables_size_part(files@, i + 1);
            }
            total = total + files[i].meta.file_size;
            i += 1;
        }
        assert(files@.take(i as int) =~= files@);
        total
    }

    /// Another handle on the tables of this version.
    pub fn snapshot(&self) -> (r: Self)
        ensures
            r@ == self@,
            r.levels@.len() == self.levels@.len(),
    {
        let mut levels: Vec<Vec<Arc<LiveSst>>> = Vec::new();
        let mut i: usize = 0;
        while i < self.levels.len()
            invariant
                i <= self.levels@.len(),
                levels@.len() == i,
                forall|j: int| 0 <= j < i ==> (#[trigger] levels@[j])@ == self.levels@[j]@,
            decreases self.levels@.len() - i,
        {
            levels.push(share_all(&self.levels[i]));
            i += 1;
        }
        let r = Version {
            levels,
            next_file_id: self.next_file_id,
            last_seq: self.last_seq,
            min_wal_id: self.min_wal_id,
        };
        assert(r@.levels =~= self@.levels);
        r
    }
}

/// Other handles on the same tables.
pub fn share_all(files: &Vec<Arc<LiveSst>>) -> (r: Vec<Arc<LiveSst>>)
    ensures
        r@ == files@,
{
    let mut r: Vec<Arc<LiveSst>> = Vec::new();
    let mut i: usize = 0;
    while i < files.len()
        invariant
            i <= files@.len(),
            r@ == files@.take(i as int),
        decreases files@.len() - i,
    {
        r.push(share(&files[i]));
        assert(files@.take(i + 1) =~= files@.take(i as int).push(files@[i as int]));
        i += 1;
    }
    assert(files@.take(i as int) =~= files@);
    r
}

fn no_tables() -> (r: Vec<Vec<Arc<LiveSst>>>)
    ensures
        r@.len() == MAX_LEVELS,
        forall|i: int|
            0 <= i < MAX_LEVELS ==> (#[trigger] r@[i])@ == Seq::<Arc<LiveSst>>::empty(),
{
    let mut r: Vec<Vec<Arc<LiveSst>>> = Vec::new();
    while r.len() < MAX_LEVELS
        invariant
            r@.len() <= MAX_LEVELS,
            forall|i: int|
                0 <= i < r@.len() ==> (#[trigger] r@[i])@ == Seq::<Arc<LiveSst>>::empty(),
        decreases MAX_LEVELS - r@.len(),
    {
        r.push(Vec::new());
    }
    r
}

// ── Edits ────────────────────────────────────────────────────────

/// A mutation of the version.
pub enum VersionEdit {
    AddFile { level: usize, file: Arc<LiveSst> },
    RemoveFile { level: usize, file_id: u64 },
    SetLastSeq(u64),
    SetNextFileId(u64),
    Reset { next_file_id: u64, min_wal_id: u64 },
}

/// The tables with another id than `file_id`.
pub open spec fn without_table(s: Seq<Arc<LiveSst>>, file_id: u64) -> Seq<Arc<LiveSst>>
    decreases s.len(),
{
    if s.len() == 0 {
        s
    } else if s.last().meta.file_id == file_id {
        without_table(s.drop_last(), file_id)
    } else {
        without_table(s.drop_last(), file_id).push(s.last())
    }
}

impl VersionEdit {
    /// The edit names a level of the tree.
    pub open spec fn level_ok(&self) -> bool {
        match self {
            VersionEdit::AddFile { level, .. } => *level < MAX_LEVELS,
            VersionEdit::RemoveFile { level, .. } => *level < MAX_LEVELS,
            _ => true,
        }
    }

    /// The record of the edit.
    pub open spec fn record(&self) -> RecordView {
        match self {
            VersionEdit::AddFile { level, file } => RecordView::AddFile {
                level: *level as nat,
                meta: file.meta@,
            },
            VersionEdit::RemoveFile { level, file_id } => RecordView::RemoveFile {
                level: *level as nat,
                file_id: *file_id,
            },
            VersionEdit::SetLastSeq(x) => RecordView::SetLastSeq(*x),
            VersionEdit::SetNextFileId(x) => RecordView::SetNextFileId(*x),
            VersionEdit::Reset { next_file_id, min_wal_id } => RecordView::Reset {
                next_file_id: *next_file_id,
                min_wal_id: *min_wal_id,
            },
        }
    }

    /// The version after the edit.
    pub open spec fn on(&self, v: VersionView) -> VersionView {
        match self {
            VersionEdit::AddFile { level, file } => VersionView {
                levels: v.levels.update(*level as int, v.levels[*level as int].push(*file)),
                ..v
            },
            VersionEdit::RemoveFile { level, file_id } => VersionView {
                levels: v.levels.update(
                    *level as int,
                    without_table(v.levels[*level as int], *file_id),
                ),
                ..v
            },
            VersionEdit::SetLastSeq(x) => VersionView { last_seq: *x, ..v },
            VersionEdit::SetNextFileId(x) => VersionView { next_file_id: *x, ..v },
            VersionEdit::Reset { next_file_id, min_wal_id } => VersionView {
                levels: empty_levels(),
                last_seq: 0,
                next_file_id: *next_file_id,
                min_wal_id: *min_wal_id,
            },
        }
    }

    /// The record of the edit.
    fn to_record(&self) -> (r: ManifestRecord)
        ensures
            r@ == self.record(),
    {
        match self {
            VersionEdit::AddFile { level, file } => ManifestRecord::AddFile {
                level: *level,
                meta: file.meta.clone(),
            },
            VersionEdit::RemoveFile { level, file_id } => ManifestRecord::RemoveFile {
                level: *level,
                file_id: *file_id,
            },
            VersionEdit::SetLastSeq(seq) => ManifestRecord::SetLastSeq(*seq),
            VersionEdit::SetNextFileId(id) => ManifestRecord::SetNextFileId(*id),
            VersionEdit::Reset { next_file_id, min_wal_id } => ManifestRecord::Reset {
                next_file_id: *next_file_id,
                min_wal_id: *min_wal_id,
            },
        }
    }

    /// Whether the edit has to be durable at once. A file-id reservation makes
    /// no new data reachable on its own; it becomes durable with the next edit
    /// that does.
    pub fn requires_manifest_sync(&self) -> (r: bool)
        ensures
            r == !(self is SetNextFileId),
    {
        match self {
            VersionEdit::SetNextFileId(_) => false,
            _ => true,
        }
    }
}

/// The version after a list of edits.
pub open spec fn edited(v: VersionView, edits: Seq<VersionEdit>) -> VersionView
    decreases edits.len(),
{
    if edits.len() == 0 {
        v
    } else {
        edits.last().on(edited(v, edits.drop_last()))
    }
}

/// The records of a list of edits.
pub open spec fn edit_records(edits: Seq<VersionEdit>) -> Seq<RecordView> {
    edits.map_values(|e: VersionEdit| e.record())
}

proof fn lemma_without(s: Seq<Arc<LiveSst>>, file_id: u64)
    ensures
        table_metas(without_table(s, file_id)) == without_meta(table_metas(s), file_id),
    decreases s.len(),
{
    if s.len() > 0 {
        lemma_without(s.drop_last(), file_id);
        assert(table_metas(s).drop_last() =~= table_metas(s.drop_last()));
        assert(table_metas(s).last() == s.last().meta@);
        assert(table_metas(without_table(s, file_id)) =~= without_meta(table_metas(s), file_id));
    } else {
        assert(table_metas(s) =~= Seq::<MetaView>::empty());
    }
}

/// The records of edits say what the edits do: a replay of the manifest leads
/// to the version that the edits led to.
pub proof fn lemma_records_say_edits(v: VersionView, edits: Seq<VersionEdit>)
    requires
        v.levels.len() == MAX_LEVELS,
        forall|i: int| 0 <= i < edits.len() ==> (#[trigger] edits[i]).level_ok(),
    ensures
        edited(v, edits).state() == run(v.state(), edit_records(edits)),
        edited(v, edits).levels.len() == MAX_LEVELS,
    decreases edits.len(),
{
    if edits.len() == 0 {
        assert(edit_records(edits) =~= Seq::<RecordView>::empty());
    } else {
        let p = edits.drop_last();
        assert forall|i: int| 0 <= i < p.len() implies (#[trigger] p[i]).level_ok() by {
            assert(p[i] == edits[i]);
        }
        lemma_records_say_edits(v, p);
        assert(edit_records(edits).drop_last() =~= edit_records(p));
        let u = edited(v, p);
        let e = edits.last();
        assert(edits[edits.len() - 1].level_ok());
        let w = e.on(u);
        match e {
            VersionEdit::AddFile { level, file } => {
                assert(table_metas(u.levels[level as int].push(file)) =~= table_metas(
                    u.levels[level as int],
                ).push(file.meta@));
            },
            VersionEdit::RemoveFile { level, file_id } => {
                lemma_without(u.levels[level as int], file_id);
            },
            VersionEdit::Reset { .. } => {
                assert(w.state().levels =~~= empty_levels::<MetaView>());
            },
            _ => {},
        }
        assert(w.state().levels =~= step(u.state(), e.record()).levels);
    }
}

/// A version to install once its records are in the manifest.
pub struct PendingVersion {
    pub version: Version,
    /// What to append to the manifest.
    pub records: Vec<u8>,
    /// Whether the append has to be made durable before the version counts.
    pub sync: bool,
}

impl Version {
    /// What a batch of edits leads to: the next version, and the records that
    /// make it durable. An edit that names no level of the tree fails the
    /// whole batch.
    pub fn apply(&self, edits: &Vec<VersionEdit>) -> (r: Result<PendingVersion, Error>)
        requires
            self.wf(),
            forall|i: int|
                0 <= i < edits@.len() && (#[trigger] edits@[i]).level_ok()
                    ==> edits@[i].record().ok(),
        ensures
            r is Ok <==> forall|i: int| 0 <= i < edits@.len() ==> (#[trigger] edits@[i]).level_ok(),
            r matches Err(e) ==> e.kind == ErrorKind::InvalidData,
            r matches Ok(p) ==> {
                &&& p.version.wf()
                &&& p.version@ == edited(self@, edits@)
                &&& p.records@ == frames(edit_records(edits@))
                &&& p.sync == exists|i: int|
                    0 <= i < edits@.len() && !((#[trigger] edits@[i]) is SetNextFileId)
            },
    {
        let mut i: usize = 0;
        while i < edits.len()
            invariant
                i <= edits@.len(),
                forall|j: int| 0 <= j < i ==> (#[trigger] edits@[j]).level_ok(),
            decreases edits@.len() - i,
        {
            let level: usize = match &edits[i] {
                VersionEdit::AddFile { level, .. } => *level,
                VersionEdit::RemoveFile { level, .. } => *level,
                _ => 0,
            };
            match validate_level_index(level) {
                Ok(()) => {},
                Err(e) => {
                    assert(!edits@[i as int].level_ok());
                    return Err(e);
                },
            }
            i += 1;
        }
        let mut version = self.snapshot();
        let mut records: Vec<ManifestRecord> = Vec::new();
        let mut sync = false;
        let mut i: usize = 0;
        assert(edits@.take(0) =~= Seq::<VersionEdit>::empty());
        while i < edits.len()
            invariant
                i <= edits@.len(),
                version.wf(),
                version@ == edited(self@, edits@.take(i as int)),
                forall|j: int| 0 <= j < edits@.len() ==> (#[trigger] edits@[j]).level_ok(),
                records@.len() == i,
                forall|j: int|
                    0 <= j < i ==> (#[trigger] records@[j])@ == edits@[j].record(),
                sync == exists|j: int| 0 <= j < i && !((#[trigger] edits@[j]) is SetNextFileId),
            decreases edits@.len() - i,
        {
            let edit = &edits[i];
            let ghost before = version@;
            assert(edits@[i as int].level_ok());
            apply_edit(&mut version, edit);
            records.push(edit.to_record());
            if edit.requires_manifest_sync() {
                sync = true;
            }
            proof {
                let t = edits@.take(i + 1);
                assert(t.drop_last() =~= edits@.take(i as int));
                assert(t.last() == edits@[i as int]);
                if exists|j: int| 0 <= j < i + 1 && !((#[trigger] edits@[j]) is SetNextFileId) {
                    let j = choose|j: int|
                        0 <= j < i + 1 && !((#[trigger] edits@[j]) is SetNextFileId);
                    if j < i {
                        assert(0 <= j < i && !(edits@[j] is SetNextFileId));
                    }
                }
            }
            i += 1;
        }
        proof {
            assert(edits@.take(i as int) =~= edits@);
            assert(record_views(records@) =~= edit_records(edits@));
            assert forall|j: int| 0 <= j < records@.len() implies (#[trigger] records@[j])@.ok() by {
                assert(edits@[j].level_ok());
            }
        }
        let bytes = encode_records(&records);
        Ok(PendingVersion { version, records: bytes, sync })
    }
}

/// Keeps the current version.
pub struct VersionSet {
    current: Version,
}

impl VersionSet {
    /// The current version.
    pub closed spec fn version(&self) -> VersionView {
        self.current@
    }

    /// The current version has all levels.
    pub closed spec fn wf(&self) -> bool {
        self.current.wf()
    }

    /// A set with the given current version.
    pub fn new(version: Version) -> (r: Self)
        requires
            version.wf(),
        ensures
            r.wf(),
            r.version() == version@,
    {
        VersionSet { current: version }
    }

    /// The current version.
    pub fn current(&self) -> (r: &Version)
        requires
            self.wf(),
        ensures
            r@ == self.version(),
            r.wf(),
    {
        &self.current
    }

    /// What a batch of edits leads to: the next version, and the records that
    /// make it durable. An edit that names no level of the tree fails the
    /// whole batch. The current version changes only when the pending one is
    /// installed, so an append that fails changes nothing.
    pub fn apply(&self, edits: &Vec<VersionEdit>) -> (r: Result<PendingVersion, Error>)
        requires
            self.wf(),
            forall|i: int|
                0 <= i < edits@.len() && (#[trigger] edits@[i]).level_ok()
                    ==> edits@[i].record().ok(),
        ensures
            r is Ok <==> forall|i: int| 0 <= i < edits@.len() ==> (#[trigger] edits@[i]).level_ok(),
            r matches Err(e) ==> e.kind == ErrorKind::InvalidData,
            r matches Ok(p) ==> {
                &&& p.version.wf()
                &&& p.version@ == edited(self.version(), edits@)
                &&& p.records@ == frames(edit_records(edits@))
                &&& p.sync == exists|i: int|
                    0 <= i < edits@.len() && !((#[trigger] edits@[i]) is SetNextFileId)
            },
    {
        self.current.apply(edits)
    }

    /// Make the pending version the current one.
    pub fn install(&mut self, pending: PendingVersion)
        requires
            pending.version.wf(),
        ensures
            final(self).wf(),
            final(self).version() == pending.version@,
    {
        self.current = pending.version;
    }

    /// The records of a manifest written from scratch for the current version.
    pub fn compact_manifest(&self) -> (r: Vec<u8>)
        requires
            self.wf(),
            self.version().state().recordable(),
        ensures
            r@ == frames(compact_records(self.version().state())),
    {
        self.current.encode_compacted()
    }
}

/// Do what an edit says.
fn apply_edit(version: &mut Version, edit: &VersionEdit)
    requires
        old(version).wf(),
        edit.level_ok(),
    ensures
        final(version).wf(),
        final(version)@ == edit.on(old(version)@),
{
    let ghost before = version@;
    match edit {
        VersionEdit::AddFile { level, file } => {
            let ghost l0 = version.levels@[*level as int]@;
            version.levels[*level].push(share(file));
        },
        VersionEdit::RemoveFile { level, file_id } => {
            drop_tables(&mut version.levels[*level], *file_id);
        },
        VersionEdit::SetLastSeq(seq) => {
            version.last_seq = *seq;
        },
        VersionEdit::SetNextFileId(id) => {
            version.next_file_id = *id;
        },
        VersionEdit::Reset { next_file_id, min_wal_id } => {
            version.levels = no_tables();
            version.last_seq = 0;
            version.next_file_id = *next_file_id;
            version.min_wal_id = *min_wal_id;
        },
    }
    assert(version@.levels =~= edit.on(before).levels);
}

/// Remove the tables with this id.
fn drop_tables(v: &mut Vec<Arc<LiveSst>>, file_id: u64)
    ensures
        final(v)@ == without_table(old(v)@, file_id),
{
    let mut i: usize = 0;
    let ghost all = v@;
    let ghost mut done: int = 0;
    assert(all.take(0) =~= Seq::<Arc<LiveSst>>::empty());
    assert(all.skip(0) =~= all);
    while i < v.len()
        invariant
            0 <= done <= all.len(),
            i <= v@.len(),
            all.len() - done == v@.len() - i,
            v@.take(i as int) == without_table(all.take(done), file_id),
            v@.skip(i as int) == all.skip(done),
        decreases v@.len() - i,
    {
        let ghost before = v@;
        proof {
            assert(all.take(done + 1).drop_last() =~= all.take(done));
            assert(before.skip(i as int)[0] == before[i as int]);
            assert(all.skip(done)[0] == all[done]);
            assert(all.skip(done).skip(1) =~= all.skip(done + 1));
        }
        if v[i].meta.file_id == file_id {
            let _ = v.remove(i);
            proof {
                assert(v@.take(i as int) =~= before.take(i as int));
                assert(v@.skip(i as int) =~= before.skip(i as int).skip(1));
            }
        } else {
            proof {
                assert(before.take(i + 1) =~= before.take(i as int).push(before[i as int]));
                assert(before.skip(i + 1) =~= before.skip(i as int).skip(1));
            }
            i += 1;
        }
        proof {
            done = done + 1;
        }
    }
    proof {
        assert(all.take(done) =~= all);
        assert(v@.take(i as int) =~= v@);
    }
}

// ── Compacting the manifest ──────────────────────────────────────

/// One added file for each of the tables.
pub open spec fn level_records(level: nat, metas: Seq<MetaView>) -> Seq<RecordView> {
    metas.map_values(|m: MetaView| RecordView::AddFile { level, meta: m })
}

/// The added files of the first `n` levels.
pub open spec fn levels_records(levels: Seq<Seq<MetaView>>, n: nat) -> Seq<RecordView>
    decreases n,
{
    if n == 0 {
        Seq::empty()
    } else {
        levels_records(levels, (n - 1) as nat) + level_records((n - 1) as nat, levels[n - 1])
    }
}

impl ManifestState {
    /// The records of the state can be written down: what they hold fits into
    /// their length fields.
    pub open spec fn recordable(self) -> bool {
        forall|i: int|
            0 <= i < compact_records(self).len() ==> (#[trigger] compact_records(self)[i]).ok()
    }
}

/// The records from which a replay builds a state in one go.
pub open spec fn compact_records(st: ManifestState) -> Seq<RecordView> {
    seq![
        RecordView::SetNextFileId(st.next_file_id),
        RecordView::SetLastSeq(st.last_seq),
        RecordView::SetMinWalId(st.min_wal_id),
    ] + levels_records(st.levels, st.levels.len())
}

proof fn lemma_level_records(st: ManifestState, level: nat, metas: Seq<MetaView>)
    requires
        level < st.levels.len(),
    ensures
        run(st, level_records(level, metas)) == (ManifestState {
            levels: st.levels.update(level as int, st.levels[level as int] + metas),
            ..st
        }),
    decreases metas.len(),
{
    let rs = level_records(level, metas);
    if metas.len() == 0 {
        assert(rs =~= Seq::<RecordView>::empty());
        assert(st.levels[level as int] + metas =~= st.levels[level as int]);
        assert(st.levels.update(level as int, st.levels[level as int] + metas) =~= st.levels);
    } else {
        let p = metas.drop_last();
        lemma_level_records(st, level, p);
        assert(rs.drop_last() =~= level_records(level, p));
        let mid = run(st, level_records(level, p));
        assert(mid.levels[level as int].push(metas.last()) =~= st.levels[level as int] + metas);
        assert(step(mid, rs.last()).levels =~= st.levels.update(
            level as int,
            st.levels[level as int] + metas,
        ));
    }
}

/// Adding the files of each level makes up the levels.
pub proof fn lemma_levels_records(st: ManifestState, levels: Seq<Seq<MetaView>>, n: nat)
    requires
        st.levels == empty_levels::<MetaView>(),
        n <= levels.len() == MAX_LEVELS,
    ensures
        run(st, levels_records(levels, n)) == (ManifestState {
            levels: Seq::new(
                MAX_LEVELS as nat,
                |i: int|
                    if i < n {
                        levels[i]
                    } else {
                        Seq::<MetaView>::empty()
                    },
            ),
            ..st
        }),
    decreases n,
{
    let want = Seq::new(
        MAX_LEVELS as nat,
        |i: int|
            if i < n {
                levels[i]
            } else {
                Seq::<MetaView>::empty()
            },
    );
    if n == 0 {
        assert(want =~= st.levels);
    } else {
        let m = (n - 1) as nat;
        lemma_levels_records(st, levels, m);
        let mid = run(st, levels_records(levels, m));
        lemma_run_concat(st, levels_records(levels, m), level_records(m, levels[m as int]));
        lemma_level_records(mid, m, levels[m as int]);
        assert(Seq::<MetaView>::empty() + levels[m as int] =~= levels[m as int]);
        assert(mid.levels.update(m as int, mid.levels[m as int] + levels[m as int]) =~= want);
    }
}

/// A manifest written from scratch replays to the state that it was written
/// for.
pub proof fn lemma_compact_manifest_replays(st: ManifestState)
    requires
        st.levels.len() == MAX_LEVELS,
    ensures
        run(initial_state(), compact_records(st)) == st,
{
    let head = seq![
        RecordView::SetNextFileId(st.next_file_id),
        RecordView::SetLastSeq(st.last_seq),
        RecordView::SetMinWalId(st.min_wal_id),
    ];
    let tail = levels_records(st.levels, st.levels.len());
    lemma_run_concat(initial_state(), head, tail);
    let mid = run(initial_state(), head);
    assert(mid == (ManifestState {
        levels: empty_levels(),
        last_seq: st.last_seq,
        next_file_id: st.next_file_id,
        min_wal_id: st.min_wal_id,
    })) by {
        reveal_with_fuel(run, 4);
        assert(head.drop_last().last() == RecordView::SetLastSeq(st.last_seq));
        assert(head.drop_last().drop_last().last() == RecordView::SetNextFileId(st.next_file_id));
    }
    lemma_levels_records(mid, st.levels, st.levels.len());
    assert(run(mid, tail).levels =~= st.levels);
}

impl Version {
    /// A manifest written from scratch for this version.
    pub fn encode_compacted(&self) -> (r: Vec<u8>)
        requires
            self.wf(),
            self@.state().recordable(),
        ensures
            r@ == frames(compact_records(self@.state())),
    {
        let records = self.compacted();
        proof {
            assert forall|j: int| 0 <= j < records@.len() implies (#[trigger] records@[j])@.fits() by {
                assert(record_views(records@)[j] == records@[j]@);
                assert(compact_records(self@.state())[j].ok());
            }
        }
        encode_records(&records)
    }

    /// The records from which a replay builds this version in one go.
    fn compacted(&self) -> (r: Vec<ManifestRecord>)
        requires
            self.wf(),
        ensures
            record_views(r@) == compact_records(self@.state()),
    {
        let mut records: Vec<ManifestRecord> = Vec::new();
        records.push(ManifestRecord::SetNextFileId(self.next_file_id));
        records.push(ManifestRecord::SetLastSeq(self.last_seq));
        records.push(ManifestRecord::SetMinWalId(self.min_wal_id));
        let ghost st = self@.state();
        let ghost head = seq![
            RecordView::SetNextFileId(st.next_file_id),
            RecordView::SetLastSeq(st.last_seq),
            RecordView::SetMinWalId(st.min_wal_id),
        ];
        assert(record_views(records@) =~= head + levels_records(st.levels, 0));
        let mut level: usize = 0;
        while level < self.levels.len()
            invariant
                self.wf(),
                level <= self.levels@.len(),
                st == self@.state(),
                record_views(records@) == head + levels_records(st.levels, level as nat),
            decreases self.levels@.len() - level,
        {
            let files = &self.levels[level];
            let ghost metas = st.levels[level as int];
            let ghost base = head + levels_records(st.levels, level as nat);
            assert(metas =~= table_metas(files@));
            let mut i: usize = 0;
            assert(level_records(level as nat, metas.take(0)) =~= Seq::<RecordView>::empty());
            assert(base + Seq::<RecordView>::empty() =~= base);
            while i < files.len()
                invariant
                    i <= files@.len(),
                    metas == table_metas(files@),
                    record_views(records@) == base + level_records(
                        level as nat,
                        metas.take(i as int),
                    ),
                decreases files@.len() - i,
            {
                let ghost before = record_views(records@);
                let rec = ManifestRecord::AddFile { level, meta: files[i].meta.clone() };
                let ghost rv = rec@;
                records.push(rec);
                proof {
                    assert(record_views(records@) =~= before.push(rv));
                    assert(level_records(level as nat, metas.take(i + 1)) =~= level_records(
                        level as nat,
                        metas.take(i as int),
                    ).push(rv));
                    assert(before.push(rv) =~= base + level_records(
                        level as nat,
                        metas.take(i + 1),
                    ));
                }
                i += 1;
            }
            proof {
                assert(metas.take(i as int) =~= metas);
                assert(base + level_records(level as nat, metas) =~= head + levels_records(
                    st.levels,
                    (level + 1) as nat,
                ));
            }
            level += 1;
        }
        records
    }
}

// ── Discarded tables ─────────────────────────────────────────────

/// Whether a table file that the manifest does not name may hold data:
/// `len` is its size, if that could be read, and `carries_data` whether its
/// footer and index record anything, if those could be read.
///
/// Only a file that provably holds nothing is ruled out: an empty one, and one
/// whose footer and index both say so.
pub fn is_suspect_table(len: Option<u64>, carries_data: Option<bool>) -> (r: bool)
    ensures
        r == !(len == Some(0u64) || (len is Some && carries_data == Some(false))),
{
    match len {
        None => true,
        Some(n) => if n == 0 {
            false
        } else {
            match carries_data {
                Some(b) => b,
                None => true,
            }
        },
    }
}

/// Whether to refuse to open: the manifest did not replay cleanly and names no
/// table at all, while the directory holds tables that may carry data. Opening
/// would turn a populated database into an empty one.
pub fn rejects_discarded_tables(
    replayed: &ManifestReplay,
    manifest_len: usize,
    suspects: usize,
) -> (r: bool)
    ensures
        r == (!(manifest_len > 0 && replayed.valid_len == manifest_len) && (forall|i: int|
            0 <= i < replayed.levels@.len() ==> (#[trigger] replayed.levels@[i])@.len() == 0)
            && suspects > 0),
{
    if manifest_len > 0 && replayed.valid_len == manifest_len {
        return false;
    }
    let mut i: usize = 0;
    while i < replayed.levels.len()
        invariant
            i <= replayed.levels@.len(),
            forall|j: int| 0 <= j < i ==> (#[trigger] replayed.levels@[j])@.len() == 0,
        decreases replayed.levels@.len() - i,
    {
        if !replayed.levels[i].is_empty() {
            return false;
        }
        i += 1;
    }
    suspects > 0
}

/// How many suspects an error message names before it summarises the rest.
pub const SUSPECTS_NAMED: usize = 8;

/// How many of the suspects a message names, and how many it only counts.
pub fn suspects_to_name(suspects: usize) -> (r: (usize, usize))
    ensures
        r.0 + r.1 == suspects,
        r.0 == if suspects < SUSPECTS_NAMED {
            suspects
        } else {
            SUSPECTS_NAMED
        },
{
    if suspects > SUSPECTS_NAMED {
        (SUSPECTS_NAMED, suspects - SUSPECTS_NAMED)
    } else {
        (suspects, 0)
    }
}

/// An edit changes one thing. A table that is added stands last in its level, a
/// table that is removed is gone from its level while the others keep their
/// order, and a reset leaves no table and no sequence number. Everything that an
/// edit does not name stays.
pub proof fn lemma_an_edit_changes_one_thing(e: VersionEdit, v: VersionView, l: int)
    requires
        e.level_ok(),
        v.levels.len() == MAX_LEVELS,
        0 <= l < MAX_LEVELS,
    ensures
        ({
            let w = e.on(v);
            let counts = w.last_seq == v.last_seq && w.next_file_id == v.next_file_id
                && w.min_wal_id == v.min_wal_id;
            &&& w.levels.len() == MAX_LEVELS
            &&& match e {
                VersionEdit::AddFile { level, file } => {
                    &&& counts
                    &&& if l == level {
                        w.levels[l].drop_last() == v.levels[l] && w.levels[l].last() == file
                            && w.levels[l].len() > 0
                    } else {
                        w.levels[l] == v.levels[l]
                    }
                },
                VersionEdit::RemoveFile { level, file_id } => {
                    &&& counts
                    &&& w.levels[l] == if l == level {
                        v.levels[l].filter(|f: Arc<LiveSst>| f.meta.file_id != file_id)
                    } else {
                        v.levels[l]
                    }
                },
                VersionEdit::SetLastSeq(x) => w.levels == v.levels && w.last_seq == x
                    && w.next_file_id == v.next_file_id && w.min_wal_id == v.min_wal_id,
                VersionEdit::SetNextFileId(x) => w.levels == v.levels && w.last_seq == v.last_seq
                    && w.next_file_id == x && w.min_wal_id == v.min_wal_id,
                VersionEdit::Reset { next_file_id, min_wal_id } => w.levels[l].len() == 0
                    && w.last_seq == 0 && w.next_file_id == next_file_id && w.min_wal_id
                    == min_wal_id,
            }
        }),
{
    if let VersionEdit::RemoveFile { level, file_id } = e {
        lemma_without_is_filter(v.levels[level as int], file_id);
    }
    if let VersionEdit::AddFile { level, file } = e {
        assert(v.levels[level as int].push(file).drop_last() =~= v.levels[level as int]);
    }
}

proof fn lemma_without_is_filter(s: Seq<Arc<LiveSst>>, file_id: u64)
    ensures
        without_table(s, file_id) == s.filter(|f: Arc<LiveSst>| f.meta.file_id != file_id),
    decreases s.len(),
{
    reveal(Seq::filter);
    if s.len() > 0 {
        lemma_without_is_filter(s.drop_last(), file_id);
    }
}

} // verus!
