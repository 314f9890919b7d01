//! Which tables a compaction takes.

use super::manifest::lemma_tables_size_part;
use super::manifest::share_all;
use super::manifest::tables_size;
use super::manifest::Version;
use super::manifest::VersionEdit;
use super::manifest_record::MAX_LEVELS;
use super::sstable::share;
use super::pick_laws::can_give;
use super::pick_laws::lemma_leveled_pick_happens_where_it_can;
use super::pick_laws::lemma_range_pick_takes_what_meets_the_range;
use super::pick_laws::reaches;
use super::sstable::LiveSst;
use crate::bytes::bytes_le;
use crate::bytes::bytes_lt;
use crate::bytes::copy_bytes;
use crate::bytes::lex_le;
use crate::bytes::lex_lt;
use std::collections::HashSet;
use std::sync::Arc;
use vstd::prelude::*;

verus! {

broadcast use vstd::std_specs::hash::group_hash_axioms;

/// How many tables level 0 may have before it is compacted.
pub const L0_COMPACTION_TRIGGER: usize = 4;

/// How many times larger each level is than the one above.
pub const LEVEL_SIZE_MULTIPLIER: u64 = 10;

/// Size of level 1.
pub const DEFAULT_LEVEL_BASE_BYTES: u64 = 268_435_456;

/// Target size of a table.
pub const DEFAULT_TARGET_FILE_SIZE: u64 = 67_108_864;

/// How tables are compacted.
#[derive(Debug, Clone, Copy, PartialEq, Eq, Structural)]
pub enum CompactionStyle {
    /// Each level is merged into the next when it is too large.
    Level,
    /// The oldest tables are dropped when there are too many bytes.
    Fifo,
    /// Tables of similar size are merged within level 0.
    Universal,
}

/// When tables of level 0 are merged.
#[derive(Debug, Clone, Copy)]
pub struct UniversalCompactionOptions {
    /// By how many percent the next table may exceed those merged so far.
    pub size_ratio: u32,
    /// Fewest tables that are merged.
    pub min_merge_width: u32,
    /// Most tables that are merged.
    pub max_merge_width: u32,
    /// How many percent of the oldest table all others may have.
    pub max_size_amplification_percent: u32,
}

/// When a level is merged into the next.
#[derive(Debug, Clone, Copy)]
pub struct LevelOptions {
    pub l0_compaction_trigger: usize,
    pub level_base_bytes: u64,
    pub level_size_multiplier: u64,
}

impl Default for LevelOptions {
    fn default() -> (r: Self)
        ensures
            r.l0_compaction_trigger == L0_COMPACTION_TRIGGER,
            r.level_base_bytes == DEFAULT_LEVEL_BASE_BYTES,
            r.level_size_multiplier == LEVEL_SIZE_MULTIPLIER,
    {
        LevelOptions {
            l0_compaction_trigger: L0_COMPACTION_TRIGGER,
            level_base_bytes: DEFAULT_LEVEL_BASE_BYTES,
            level_size_multiplier: LEVEL_SIZE_MULTIPLIER,
        }
    }
}

/// The codec of tables for `level`: the level's own where there is one,
/// otherwise the default.
pub fn compression_for_level<T: Copy>(per_level: &Option<Vec<T>>, default: T, level: usize) -> (r:
    T)
    ensures
        r == match per_level {
            Some(v) if level < v@.len() => v@[level as int],
            _ => default,
        },
{
    match per_level {
        Some(v) => if level < v.len() {
            v[level]
        } else {
            default
        },
        None => default,
    }
}

/// A product that stops at the largest number.
pub open spec fn sat_mul(a: u64, b: u64) -> u64 {
    if a * b > u64::MAX {
        u64::MAX
    } else {
        (a * b) as u64
    }
}

/// How large a level may be: the base size for level 1, then the multiple of
/// the level above.
pub open spec fn target_size(level: nat, opts: LevelOptions) -> u64
    decreases level,
{
    if level <= 1 {
        opts.level_base_bytes
    } else {
        sat_mul(target_size((level - 1) as nat, opts), opts.level_size_multiplier)
    }
}

/// How large a level may be before it is compacted.
pub fn level_target_size(level: usize, opts: &LevelOptions) -> (r: u64)
    ensures
        r == target_size(level as nat, *opts),
{
    let mut size: u64 = opts.level_base_bytes;
    let mut l: usize = 1;
    while l < level
        invariant
            1 <= l,
            l <= level || level == 0 && l == 1,
            size == target_size(l as nat, *opts),
        decreases level - l,
    {
        size = match size.checked_mul(opts.level_size_multiplier) {
            Some(s) => s,
            None => u64::MAX,
        };
        l += 1;
    }
    size
}

// ── Ranges ───────────────────────────────────────────────────────

/// The least smallest key of the tables.
pub open spec fn min_key(files: Seq<Arc<LiveSst>>) -> Seq<u8>
    decreases files.len(),
{
    if files.len() <= 1 {
        files[0].meta.smallest_key@
    } else {
        let m = min_key(files.drop_last());
        let k = files.last().meta.smallest_key@;
        if lex_lt(k, m) {
            k
        } else {
            m
        }
    }
}

/// The greatest largest key of the tables.
pub open spec fn max_key(files: Seq<Arc<LiveSst>>) -> Seq<u8>
    decreases files.len(),
{
    if files.len() <= 1 {
        files[0].meta.largest_key@
    } else {
        let m = max_key(files.drop_last());
        let k = files.last().meta.largest_key@;
        if lex_lt(m, k) {
            k
        } else {
            m
        }
    }
}

/// The range of keys of several tables.
pub fn key_range(files: &Vec<Arc<LiveSst>>) -> (r: (Vec<u8>, Vec<u8>))
    requires
        files@.len() > 0,
    ensures
        r.0@ == min_key(files@),
        r.1@ == max_key(files@),
{
    let mut lo = copy_bytes(files[0].meta.smallest_key.as_slice());
    let mut hi = copy_bytes(files[0].meta.largest_key.as_slice());
    let mut i: usize = 1;
    assert(files@.take(1)[0] == files@[0]);
    while i < files.len()
        invariant
            1 <= i <= files@.len(),
            lo@ == min_key(files@.take(i as int)),
            hi@ == max_key(files@.take(i as int)),
        decreases files@.len() - i,
    {
        proof {
            let t = files@.take(i + 1);
            assert(t.drop_last() =~= files@.take(i as int));
            assert(t.last() == files@[i as int]);
        }
        if bytes_lt(files[i].meta.smallest_key.as_slice(), lo.as_slice()) {
            lo = copy_bytes(files[i].meta.smallest_key.as_slice());
        }
        if bytes_lt(hi.as_slice(), files[i].meta.largest_key.as_slice()) {
            hi = copy_bytes(files[i].meta.largest_key.as_slice());
        }
        i += 1;
    }
    assert(files@.take(i as int) =~= files@);
    (lo, hi)
}

/// The range of a table and `[lo, hi]` have a key in common.
pub open spec fn meets(f: Arc<LiveSst>, lo: Seq<u8>, hi: Seq<u8>) -> bool {
    lex_le(f.meta.smallest_key@, hi) && lex_le(lo, f.meta.largest_key@)
}

/// Whether the range of a table and `[lo, hi]` have a key in common.
pub fn file_meets(f: &Arc<LiveSst>, lo: &[u8], hi: &[u8]) -> (r: bool)
    ensures
        r == meets(*f, lo@, hi@),
{
    bytes_le(f.meta.smallest_key.as_slice(), hi) && bytes_le(lo, f.meta.largest_key.as_slice())
}

/// The tables whose range meets `[lo, hi]`.
pub open spec fn overlapping(files: Seq<Arc<LiveSst>>, lo: Seq<u8>, hi: Seq<u8>) -> Seq<
    Arc<LiveSst>,
>
    decreases files.len(),
{
    if files.len() == 0 {
        files
    } else if meets(files.last(), lo, hi) {
        overlapping(files.drop_last(), lo, hi).push(files.last())
    } else {
        overlapping(files.drop_last(), lo, hi)
    }
}

/// The tables whose range meets `[lo, hi]`.
pub fn find_overlapping(files: &Vec<Arc<LiveSst>>, lo: &[u8], hi: &[u8]) -> (r: Vec<Arc<LiveSst>>)
    ensures
        r@ == overlapping(files@, lo@, hi@),
{
    let mut r: Vec<Arc<LiveSst>> = Vec::new();
    let mut i: usize = 0;
    assert(files@.take(0) =~= Seq::<Arc<LiveSst>>::empty());
    while i < files.len()
        invariant
            i <= files@.len(),
            r@ == overlapping(files@.take(i as int), lo@, hi@),
        decreases files@.len() - i,
    {
        proof {
            let t = files@.take(i + 1);
            assert(t.drop_last() =~= files@.take(i as int));
            assert(t.last() == files@[i as int]);
        }
        if file_meets(&files[i], lo, hi) {
            r.push(share(&files[i]));
        }
        i += 1;
    }
    assert(files@.take(i as int) =~= files@);
    r
}

/// The range of a table meets `[start, end)`; a missing bound is no bound.
pub open spec fn within_reach(f: Arc<LiveSst>, start: Option<Seq<u8>>, end: Option<Seq<u8>>) -> bool {
    &&& start matches Some(s) ==> !lex_lt(f.meta.largest_key@, s)
    &&& end matches Some(e) ==> lex_lt(f.meta.smallest_key@, e)
}

/// Whether the range of a table meets `[start, end)`; a missing bound is no
/// bound.
pub fn file_overlaps_range(file: &Arc<LiveSst>, start: Option<&[u8]>, end: Option<&[u8]>) -> (r:
    bool)
    ensures
        r == within_reach(*file, opt_bound(start), opt_bound(end)),
{
    if let Some(s) = start {
        if bytes_lt(file.meta.largest_key.as_slice(), s) {
            return false;
        }
    }
    if let Some(e) = end {
        if !bytes_lt(file.meta.smallest_key.as_slice(), e) {
            return false;
        }
    }
    true
}

/// What an optional bound says.
pub open spec fn opt_bound(b: Option<&[u8]>) -> Option<Seq<u8>> {
    match b {
        Some(s) => Some(s@),
        None => None,
    }
}

// ── Tables that are being compacted ──────────────────────────────

/// One of the tables is being compacted.
pub open spec fn any_busy(files: Seq<Arc<LiveSst>>, busy: Set<u64>) -> bool {
    exists|i: int| 0 <= i < files.len() && busy.contains((#[trigger] files[i]).meta.file_id)
}

/// Whether one of the tables is being compacted.
pub fn is_any_busy(files: &Vec<Arc<LiveSst>>, busy: &HashSet<u64>) -> (r: bool)
    ensures
        r == any_busy(files@, busy@),
{
    let mut i: usize = 0;
    while i < files.len()
        invariant
            i <= files@.len(),
            forall|j: int| 0 <= j < i ==> !busy@.contains((#[trigger] files@[j]).meta.file_id),
        decreases files@.len() - i,
    {
        if busy.contains(&files[i].meta.file_id) {
            assert(busy@.contains(files@[i as int].meta.file_id));
            return true;
        }
        i += 1;
    }
    false
}

/// The first table that is not being compacted.
pub open spec fn first_idle(files: Seq<Arc<LiveSst>>, busy: Set<u64>) -> Option<Arc<LiveSst>>
    decreases files.len(),
{
    if files.len() == 0 {
        None
    } else if !busy.contains(files[0].meta.file_id) {
        Some(files[0])
    } else {
        first_idle(files.skip(1), busy)
    }
}

fn find_idle(files: &Vec<Arc<LiveSst>>, busy: &HashSet<u64>) -> (r: Option<Arc<LiveSst>>)
    ensures
        r == first_idle(files@, busy@),
{
    let mut i: usize = 0;
    assert(files@.skip(0) =~= files@);
    while i < files.len()
        invariant
            i <= files@.len(),
            first_idle(files@, busy@) == first_idle(files@.skip(i as int), busy@),
        decreases files@.len() - i,
    {
        proof {
            assert(files@.skip(i as int)[0] == files@[i as int]);
            assert(files@.skip(i as int).skip(1) =~= files@.skip(i + 1));
        }
        if !busy.contains(&files[i].meta.file_id) {
            return Some(share(&files[i]));
        }
        i += 1;
    }
    None
}

/// Tables that are merged: those of the input level, and those of the output
/// level that they overlap.
pub struct Picked {
    pub inputs: Vec<Arc<LiveSst>>,
    pub overlaps: Vec<Arc<LiveSst>>,
}

/// Tables that are merged.
#[verifier::ext_equal]
pub struct PickedView {
    pub inputs: Seq<Arc<LiveSst>>,
    pub overlaps: Seq<Arc<LiveSst>>,
}

impl View for Picked {
    type V = PickedView;

    open spec fn view(&self) -> PickedView {
        PickedView { inputs: self.inputs@, overlaps: self.overlaps@ }
    }
}

/// What an optional pick says.
pub open spec fn opt_pick(p: Option<Picked>) -> Option<PickedView> {
    match p {
        Some(p) => Some(p@),
        None => None,
    }
}

/// The inputs, with the tables of the next level that they overlap.
pub open spec fn with_overlaps(inputs: Seq<Arc<LiveSst>>, next: Seq<Arc<LiveSst>>) -> PickedView {
    PickedView { inputs, overlaps: overlapping(next, min_key(inputs), max_key(inputs)) }
}

fn pick_with_overlaps(inputs: Vec<Arc<LiveSst>>, next: &Vec<Arc<LiveSst>>) -> (r: Picked)
    requires
        inputs@.len() > 0,
    ensures
        r@ == with_overlaps(inputs@, next@),
{
    let (lo, hi) = key_range(&inputs);
    let overlaps = find_overlapping(next, lo.as_slice(), hi.as_slice());
    Picked { inputs, overlaps }
}

impl Picked {
    /// The table with this id is merged.
    pub open spec fn takes(&self, id: u64) -> bool {
        ||| exists|i: int| 0 <= i < self.inputs@.len() && (#[trigger] self.inputs@[i]).meta.file_id == id
        ||| exists|i: int|
            0 <= i < self.overlaps@.len() && (#[trigger] self.overlaps@[i]).meta.file_id == id
    }

    /// Note that the tables are being compacted.
    pub fn register(&self, busy: &mut HashSet<u64>)
        ensures
            forall|id: u64| #[trigger]
                final(busy)@.contains(id) == (old(busy)@.contains(id) || self.takes(id)),
    {
        let ghost b0 = busy@;
        let mut i: usize = 0;
        while i < self.inputs.len()
            invariant
                i <= self.inputs@.len(),
                b0 == old(busy)@,
                forall|id: u64| #[trigger]
                    busy@.contains(id) == (b0.contains(id) || exists|j: int|
                        0 <= j < i && (#[trigger] self.inputs@[j]).meta.file_id == id),
            decreases self.inputs@.len() - i,
        {
            let ghost b1 = busy@;
            busy.insert(self.inputs[i].meta.file_id);
            assert(busy@ == b1.insert(self.inputs@[i as int].meta.file_id));
            i += 1;
        }
        let ghost b2 = busy@;
        let mut i: usize = 0;
        while i < self.overlaps.len()
            invariant
                i <= self.overlaps@.len(),
                forall|id: u64| #[trigger]
                    busy@.contains(id) == (b2.contains(id) || exists|j: int|
                        0 <= j < i && (#[trigger] self.overlaps@[j]).meta.file_id == id),
            decreases self.overlaps@.len() - i,
        {
            let ghost b1 = busy@;
            busy.insert(self.overlaps[i].meta.file_id);
            assert(busy@ == b1.insert(self.overlaps@[i as int].meta.file_id));
            i += 1;
        }
    }

    /// Note that the tables are no longer being compacted, whether or not the
    /// compaction succeeded.
    pub fn deregister(&self, busy: &mut HashSet<u64>)
        ensures
            forall|id: u64| #[trigger]
                final(busy)@.contains(id) == (old(busy)@.contains(id) && !self.takes(id)),
    {
        let ghost b0 = busy@;
        let mut i: usize = 0;
        while i < self.inputs.len()
            invariant
                i <= self.inputs@.len(),
                b0 == old(busy)@,
                forall|id: u64| #[trigger]
                    busy@.contains(id) == (b0.contains(id) && !exists|j: int|
                        0 <= j < i && (#[trigger] self.inputs@[j]).meta.file_id == id),
            decreases self.inputs@.len() - i,
        {
            let ghost b1 = busy@;
            busy.remove(&self.inputs[i].meta.file_id);
            assert(busy@ == b1.remove(self.inputs@[i as int].meta.file_id));
            i += 1;
        }
        let ghost b2 = busy@;
        let mut i: usize = 0;
        while i < self.overlaps.len()
            invariant
                i <= self.overlaps@.len(),
                forall|id: u64| #[trigger]
                    busy@.contains(id) == (b2.contains(id) && !exists|j: int|
                        0 <= j < i && (#[trigger] self.overlaps@[j]).meta.file_id == id),
            decreases self.overlaps@.len() - i,
        {
            let ghost b1 = busy@;
            busy.remove(&self.overlaps[i].meta.file_id);
            assert(busy@ == b1.remove(self.overlaps@[i as int].meta.file_id));
            i += 1;
        }
    }
}

// ── Levels ───────────────────────────────────────────────────────

/// What is compacted of a level: all of level 0, whose tables may overlap;
/// below it the first table that is not being compacted. Nothing is picked
/// while a table of the next level that would go with it is being compacted.
pub open spec fn level_pick(levels: Seq<Seq<Arc<LiveSst>>>, level: int, busy: Set<u64>) -> Option<
    PickedView,
> {
    if level + 1 >= MAX_LEVELS || levels[level].len() == 0 {
        None
    } else if level == 0 {
        let p = with_overlaps(levels[0], levels[1]);
        if any_busy(p.overlaps, busy) {
            None
        } else {
            Some(p)
        }
    } else {
        match first_idle(levels[level], busy) {
            Some(f) => {
                let p = with_overlaps(seq![f], levels[level + 1]);
                if any_busy(p.overlaps, busy) {
                    None
                } else {
                    Some(p)
                }
            },
            None => None,
        }
    }
}

/// What is compacted of level 0: nothing while one of its tables, or of the
/// tables that go with them, is.
pub open spec fn l0_pick(levels: Seq<Seq<Arc<LiveSst>>>, busy: Set<u64>) -> Option<PickedView> {
    if any_busy(levels[0], busy) {
        None
    } else {
        level_pick(levels, 0, busy)
    }
}

/// The first level from `level` on that is larger than its target.
pub open spec fn oversized_level(v: Version, level: int, opts: LevelOptions) -> Option<int>
    decreases MAX_LEVELS - level,
{
    if level >= MAX_LEVELS - 1 {
        None
    } else if tables_size(v.levels@[level]@) > target_size(level as nat, opts) {
        Some(level)
    } else {
        oversized_level(v, level + 1, opts)
    }
}

/// Which level is compacted, and what of it: level 0 when it has too many
/// tables, otherwise the first level that is too large.
pub open spec fn leveled_pick(v: Version, opts: LevelOptions, busy: Set<u64>) -> Option<
    (int, PickedView),
> {
    if v.levels@[0]@.len() >= opts.l0_compaction_trigger {
        match l0_pick(v@.levels, busy) {
            Some(p) => Some((0, p)),
            None => None,
        }
    } else {
        match oversized_level(v, 1, opts) {
            Some(l) => match level_pick(v@.levels, l, busy) {
                Some(p) => Some((l, p)),
                None => None,
            },
            None => None,
        }
    }
}

/// Pick what is compacted of a level into the next.
pub fn pick_level(version: &Version, level: usize, busy: &HashSet<u64>) -> (r: Option<Picked>)
    requires
        version.wf(),
        level < MAX_LEVELS,
    ensures
        opt_pick(r) == level_pick(version@.levels, level as int, busy@),
{
    if level + 1 >= MAX_LEVELS {
        return None;
    }
    let files = &version.levels[level];
    let next = &version.levels[level + 1];
    if files.len() == 0 {
        return None;
    }
    if level == 0 {
        let picked = pick_with_overlaps(share_all(files), next);
        return if is_any_busy(&picked.overlaps, busy) {
            None
        } else {
            Some(picked)
        };
    }
    match find_idle(files, busy) {
        Some(f) => {
            let mut inputs: Vec<Arc<LiveSst>> = Vec::new();
            let ghost g = f;
            inputs.push(f);
            assert(inputs@ =~= seq![g]);
            let picked = pick_with_overlaps(inputs, next);
            if is_any_busy(&picked.overlaps, busy) {
                None
            } else {
                Some(picked)
            }
        },
        None => None,
    }
}

/// Pick all of level 0, unless one of the tables that would go in is being
/// compacted.
pub fn pick_l0(version: &Version, busy: &HashSet<u64>) -> (r: Option<Picked>)
    requires
        version.wf(),
    ensures
        opt_pick(r) == l0_pick(version@.levels, busy@),
{
    if is_any_busy(&version.levels[0], busy) {
        return None;
    }
    pick_level(version, 0, busy)
}

/// Pick the level that is compacted next, and what of it.
pub fn pick_leveled(version: &Version, opts: &LevelOptions, busy: &HashSet<u64>) -> (r: Option<
    (usize, Picked),
>)
    requires
        version.wf(),
        forall|l: int|
            0 <= l < version.levels@.len() ==> tables_size((#[trigger] version.levels@[l])@)
                <= u64::MAX,
    ensures
        match r {
            Some((l, p)) => leveled_pick(*version, *opts, busy@) == Some((l as int, p@)),
            None => leveled_pick(*version, *opts, busy@) is None,
        },
        match r {
            Some((l, p)) => can_give(*version, *opts, busy@, l as int, p@),
            None => forall|l: int, p: PickedView| !#[trigger]
                can_give(*version, *opts, busy@, l, p),
        },
{
    proof {
        assert forall|l: int, p: PickedView| #[trigger]
            can_give(*version, *opts, busy@, l, p) == (leveled_pick(*version, *opts, busy@)
                == Some((l, p))) by {
            lemma_leveled_pick_happens_where_it_can(*version, *opts, busy@, l, p);
        }
    }
    if version.l0_count() >= opts.l0_compaction_trigger {
        return match pick_l0(version, busy) {
            Some(p) => Some((0, p)),
            None => None,
        };
    }
    let mut level: usize = 1;
    while level < MAX_LEVELS - 1
        invariant
            version.wf(),
            1 <= level <= MAX_LEVELS - 1,
            forall|l: int|
                0 <= l < version.levels@.len() ==> tables_size((#[trigger] version.levels@[l])@)
                    <= u64::MAX,
            version.levels@[0]@.len() < opts.l0_compaction_trigger,
            oversized_level(*version, 1, *opts) == oversized_level(*version, level as int, *opts),
            forall|l: int, p: PickedView| #[trigger]
                can_give(*version, *opts, busy@, l, p) == (leveled_pick(*version, *opts, busy@)
                    == Some((l, p))),
        decreases MAX_LEVELS - level,
    {
        assert(tables_size(version.levels@[level as int]@) <= u64::MAX);
        if version.level_size(level) > level_target_size(level, opts) {
            return match pick_level(version, level, busy) {
                Some(p) => Some((level, p)),
                None => None,
            };
        }
        level += 1;
    }
    None
}

// ── By age ───────────────────────────────────────────────────────

/// `s` with `f` put in order: behind the tables that are newer, or where
/// `newest_first` does not hold, behind those that are older. Tables with one
/// id keep their order.
pub open spec fn put_in(s: Seq<Arc<LiveSst>>, f: Arc<LiveSst>, newest_first: bool) -> Seq<
    Arc<LiveSst>,
>
    decreases s.len(),
{
    if s.len() == 0 {
        seq![f]
    } else if if newest_first {
        s.last().meta.file_id < f.meta.file_id
    } else {
        s.last().meta.file_id > f.meta.file_id
    } {
        put_in(s.drop_last(), f, newest_first).push(s.last())
    } else {
        s.push(f)
    }
}

/// The tables in the order of their age. A younger table has a larger id.
pub open spec fn by_age(files: Seq<Arc<LiveSst>>, newest_first: bool) -> Seq<Arc<LiveSst>>
    decreases files.len(),
{
    if files.len() == 0 {
        files
    } else {
        put_in(by_age(files.drop_last(), newest_first), files.last(), newest_first)
    }
}

proof fn lemma_put_in(s: Seq<Arc<LiveSst>>, f: Arc<LiveSst>, newest_first: bool, at: int)
    requires
        0 <= at <= s.len(),
        forall|i: int|
            at <= i < s.len() ==> if newest_first {
                (#[trigger] s[i]).meta.file_id < f.meta.file_id
            } else {
                s[i].meta.file_id > f.meta.file_id
            },
        at > 0 ==> if newest_first {
            s[at - 1].meta.file_id >= f.meta.file_id
        } else {
            s[at - 1].meta.file_id <= f.meta.file_id
        },
    ensures
        put_in(s, f, newest_first) == s.insert(at, f),
    decreases s.len(),
{
    if s.len() == 0 {
        assert(s.insert(0, f) =~= seq![f]);
    } else if at == s.len() {
        assert(s.insert(at, f) =~= s.push(f));
    } else {
        let d = s.drop_last();
        assert(s.last() == s[s.len() - 1]);
        assert forall|i: int| at <= i < d.len() implies if newest_first {
            (#[trigger] d[i]).meta.file_id < f.meta.file_id
        } else {
            d[i].meta.file_id > f.meta.file_id
        } by {
            assert(d[i] == s[i]);
        }
        lemma_put_in(d, f, newest_first, at);
        assert(s.insert(at, f) =~= d.insert(at, f).push(s.last()));
    }
}

proof fn lemma_put_in_size(s: Seq<Arc<LiveSst>>, f: Arc<LiveSst>, newest_first: bool)
    ensures
        put_in(s, f, newest_first).len() == s.len() + 1,
        tables_size(put_in(s, f, newest_first)) == tables_size(s) + f.meta.file_size,
    decreases s.len(),
{
    if s.len() == 0 {
        assert(seq![f].drop_last() =~= Seq::<Arc<LiveSst>>::empty());
        assert(seq![f].last() == f);
        assert(tables_size(Seq::<Arc<LiveSst>>::empty()) == 0);
    } else {
        lemma_put_in_size(s.drop_last(), f, newest_first);
        let p = put_in(s.drop_last(), f, newest_first);
        assert(p.push(s.last()).drop_last() =~= p);
        assert(s.push(f).drop_last() =~= s);
    }
}

/// Ordering tables keeps how many there are and how large they are.
pub proof fn lemma_by_age_size(files: Seq<Arc<LiveSst>>, newest_first: bool)
    ensures
        by_age(files, newest_first).len() == files.len(),
        tables_size(by_age(files, newest_first)) == tables_size(files),
    decreases files.len(),
{
    if files.len() > 0 {
        lemma_by_age_size(files.drop_last(), newest_first);
        lemma_put_in_size(by_age(files.drop_last(), newest_first), files.last(), newest_first);
    }
}

/// Put tables in the order of their age.
pub fn order_by_age(files: &Vec<Arc<LiveSst>>, newest_first: bool) -> (r: Vec<Arc<LiveSst>>)
    ensures
        r@ == by_age(files@, newest_first),
{
    let mut r: Vec<Arc<LiveSst>> = Vec::new();
    let mut i: usize = 0;
    assert(files@.take(0) =~= Seq::<Arc<LiveSst>>::empty());
    while i < files.len()
        invariant
            i <= files@.len(),
            r@ == by_age(files@.take(i as int), newest_first),
        decreases files@.len() - i,
    {
        let id: u64 = files[i].meta.file_id;
        let mut at: usize = r.len();
        let mut moving = at > 0;
        while moving
            invariant
                at <= r@.len(),
                moving ==> at > 0,
                id == files@[i as int].meta.file_id,
                forall|j: int|
                    at <= j < r@.len() ==> if newest_first {
                        (#[trigger] r@[j]).meta.file_id < id
                    } else {
                        r@[j].meta.file_id > id
                    },
                !moving && at > 0 ==> if newest_first {
                    r@[at - 1].meta.file_id >= id
                } else {
                    r@[at - 1].meta.file_id <= id
                },
            decreases
                    at,
                    if moving {
                        1int
                    } else {
                        0int
                    },
        {
            let other: u64 = r[at - 1].meta.file_id;
            if if newest_first {
                other < id
            } else {
                other > id
            } {
                at -= 1;
                moving = at > 0;
            } else {
                moving = false;
            }
        }
        proof {
            lemma_put_in(r@, files@[i as int], newest_first, at as int);
            let t = files@.take(i + 1);
            assert(t.drop_last() =~= files@.take(i as int));
            assert(t.last() == files@[i as int]);
        }
        r.insert(at, share(&files[i]));
        i += 1;
    }
    assert(files@.take(i as int) =~= files@);
    r
}

// ── Universal ────────────────────────────────────────────────────

/// How many of the newest tables are merged, when the first `n` are in and
/// have `total` bytes together: the next one is as long as it is not larger
/// than those by more than `ratio` percent.
pub open spec fn tier_len(
    files: Seq<Arc<LiveSst>>,
    n: nat,
    total: nat,
    ratio: nat,
    max_width: nat,
) -> nat
    decreases files.len() - n,
{
    if n >= max_width || n >= files.len() {
        n
    } else if n == 0 || total * (100 + ratio) / 100 >= files[n as int].meta.file_size {
        tier_len(files, n + 1, total + files[n as int].meta.file_size as nat, ratio, max_width)
    } else {
        n
    }
}

/// The larger of two numbers.
pub open spec fn at_least(a: u32, b: nat) -> nat {
    if a < b {
        b
    } else {
        a as nat
    }
}

/// What is merged within level 0: the newest tables of similar size, if there
/// are enough of them; otherwise everything, if the tables are large against
/// the oldest one.
pub open spec fn universal_pick(files: Seq<Arc<LiveSst>>, o: UniversalCompactionOptions) -> Option<
    Seq<Arc<LiveSst>>,
> {
    let aged = by_age(files, true);
    let n = tier_len(aged, 0, 0, o.size_ratio as nat, at_least(o.max_merge_width, 1));
    if files.len() < 2 {
        None
    } else if n >= at_least(o.min_merge_width, 2) {
        Some(aged.take(n as int))
    } else if aged.last().meta.file_size == 0 {
        None
    } else if tables_size(aged.drop_last()) * 100 / aged.last().meta.file_size as nat
        >= o.max_size_amplification_percent {
        Some(aged)
    } else {
        None
    }
}

proof fn lemma_fits(total: nat, all: nat, ratio: nat, limit: nat)
    requires
        total <= all,
        all * (100 + ratio) <= limit,
    ensures
        total * (100 + ratio) <= limit,
        total * 100 <= limit,
{
    assert(total * (100 + ratio) <= all * (100 + ratio)) by (nonlinear_arith)
        requires
            total <= all,
    ;
    assert(total * 100 <= total * (100 + ratio)) by (nonlinear_arith);
}

/// Pick what is merged within level 0.
pub fn pick_universal(files: &Vec<Arc<LiveSst>>, opts: &UniversalCompactionOptions) -> (r: Option<
    Vec<Arc<LiveSst>>,
>)
    requires
        tables_size(files@) * (100 + opts.size_ratio) <= u128::MAX,
    ensures
        match r {
            Some(v) => universal_pick(files@, *opts) == Some(v@),
            None => universal_pick(files@, *opts) is None,
        },
{
    if files.len() < 2 {
        return None;
    }
    let aged = order_by_age(files, true);
    proof {
        lemma_by_age_size(files@, true);
    }
    let max_width: usize = if opts.max_merge_width < 1 {
        1
    } else {
        opts.max_merge_width as usize
    };
    let min_width: usize = if opts.min_merge_width < 2 {
        2
    } else {
        opts.min_merge_width as usize
    };
    let ratio: u128 = opts.size_ratio as u128;
    let ghost all = tables_size(aged@);
    let mut n: usize = 0;
    let mut total: u128 = 0;
    let mut growing = true;
    assert(aged@.take(0) =~= Seq::<Arc<LiveSst>>::empty());
    while growing && n < aged.len() && n < max_width
        invariant
            n <= aged@.len(),
            all == tables_size(aged@),
            ratio == opts.size_ratio,
            all * (100 + opts.size_ratio as nat) <= u128::MAX,
            total == tables_size(aged@.take(n as int)),
            growing ==> tier_len(aged@, 0, 0, ratio as nat, max_width as nat) == tier_len(
                aged@,
                n as nat,
                total as nat,
                ratio as nat,
                max_width as nat,
            ),
            !growing ==> tier_len(aged@, 0, 0, ratio as nat, max_width as nat) == n,
        decreases
                aged@.len() - n,
                if growing {
                    1int
                } else {
                    0int
                },
    {
        let size: u128 = aged[n].meta.file_size as u128;
        proof {
            lemma_tables_size_part(aged@, n as int);
            lemma_tables_size_part(aged@, n + 1);
            lemma_fits(total as nat, all, opts.size_ratio as nat, u128::MAX as nat);
            lemma_fits(
                tables_size(aged@.take(n + 1)),
                all,
                opts.size_ratio as nat,
                u128::MAX as nat,
            );
        }
        if n == 0 || total * (100 + ratio) / 100 >= size {
            total = total + size;
            n += 1;
        } else {
            growing = false;
        }
    }
    if n >= min_width {
        let mut group: Vec<Arc<LiveSst>> = Vec::new();
        let mut i: usize = 0;
        while i < n
            invariant
                i <= n <= aged@.len(),
                group@ == aged@.take(i as int),
            decreases n - i,
        {
            group.push(share(&aged[i]));
            assert(aged@.take(i + 1) =~= aged@.take(i as int).push(aged@[i as int]));
            i += 1;
        }
        return Some(group);
    }
    let last: usize = aged.len() - 1;
    let oldest: u128 = aged[last].meta.file_size as u128;
    if oldest == 0 {
        return None;
    }
    let ghost young = aged@.drop_last();
    let mut younger: u128 = 0;
    let mut i: usize = 0;
    proof {
        assert(young.take(0) =~= Seq::<Arc<LiveSst>>::empty());
        assert(young =~= aged@.take(last as int));
        lemma_tables_size_part(aged@, last as int);
        lemma_fits(tables_size(young), all, opts.size_ratio as nat, u128::MAX as nat);
    }
    while i < last
        invariant
            i <= last,
            last == aged@.len() - 1,
            young == aged@.drop_last(),
            tables_size(young) <= u128::MAX,
            younger == tables_size(young.take(i as int)),
        decreases last - i,
    {
        proof {
            lemma_tables_size_part(young, i as int);
            lemma_tables_size_part(young, i + 1);
            assert(young[i as int] == aged@[i as int]);
        }
        younger = younger + aged[i].meta.file_size as u128;
        i += 1;
    }
    assert(young.take(i as int) =~= young);
    if younger * 100 / oldest >= opts.max_size_amplification_percent as u128 {
        Some(aged)
    } else {
        None
    }
}

/// Everything in level 0, for a merge that a caller asks for; nothing where
/// there is at most one table.
pub fn pick_universal_full(files: &Vec<Arc<LiveSst>>) -> (r: Option<Vec<Arc<LiveSst>>>)
    ensures
        match r {
            Some(v) => files@.len() >= 2 && v@ == files@,
            None => files@.len() < 2,
        },
{
    if files.len() < 2 {
        None
    } else {
        Some(share_all(files))
    }
}

// ── First in, first out ──────────────────────────────────────────

/// How many of the tables, oldest first, are dropped after the first `n`, when
/// `total` bytes are left: as long as there is more than the limit, and never
/// the last table.
pub open spec fn fifo_len(files: Seq<Arc<LiveSst>>, n: nat, total: int, limit: u64) -> nat
    decreases files.len() - n,
{
    if n + 1 >= files.len() || total <= limit {
        n
    } else {
        fifo_len(files, n + 1, total - files[n as int].meta.file_size, limit)
    }
}

/// The tables that are dropped: the oldest, as long as level 0 has more bytes
/// than the limit. A limit of 0 is no limit.
pub open spec fn fifo_pick(files: Seq<Arc<LiveSst>>, limit: u64) -> Seq<Arc<LiveSst>> {
    if limit == 0 {
        Seq::empty()
    } else {
        let aged = by_age(files, false);
        aged.take(fifo_len(aged, 0, tables_size(files) as int, limit) as int)
    }
}

/// Pick the tables that are dropped from level 0.
pub fn pick_fifo(files: &Vec<Arc<LiveSst>>, limit: u64) -> (r: Vec<Arc<LiveSst>>)
    requires
        tables_size(files@) <= u64::MAX,
    ensures
        r@ == fifo_pick(files@, limit),
{
    let mut r: Vec<Arc<LiveSst>> = Vec::new();
    if limit == 0 {
        assert(r@ =~= Seq::<Arc<LiveSst>>::empty());
        return r;
    }
    let aged = order_by_age(files, false);
    proof {
        lemma_by_age_size(files@, false);
    }
    let mut total: u64 = 0;
    let mut i: usize = 0;
    assert(aged@.take(0) =~= Seq::<Arc<LiveSst>>::empty());
    while i < aged.len()
        invariant
            i <= aged@.len(),
            tables_size(aged@) <= u64::MAX,
            total == tables_size(aged@.take(i as int)),
        decreases aged@.len() - i,
    {
        proof {
            lemma_tables_size_part(aged@, i as int);
            lemma_tables_size_part(aged@, i + 1);
        }
        total = total + aged[i].meta.file_size;
        i += 1;
    }
    assert(aged@.take(i as int) =~= aged@);
    let ghost whole = total;
    let mut n: usize = 0;
    while n < aged.len() && aged.len() - n > 1 && total > limit
        invariant
            n <= aged@.len(),
            total == whole - tables_size(aged@.take(n as int)),
            whole == tables_size(aged@),
            r@ == aged@.take(n as int),
            fifo_len(aged@, 0, whole as int, limit) == fifo_len(
                aged@,
                n as nat,
                total as int,
                limit,
            ),
        decreases aged@.len() - n,
    {
        proof {
            lemma_tables_size_part(aged@, n as int);
            lemma_tables_size_part(aged@, n + 1);
            assert(aged@.take(n + 1) =~= aged@.take(n as int).push(aged@[n as int]));
        }
        total = total - aged[n].meta.file_size;
        r.push(share(&aged[n]));
        n += 1;
    }
    r
}

/// Dropping tables never drops the last one.
pub proof fn lemma_fifo_keeps_one(files: Seq<Arc<LiveSst>>, limit: u64)
    requires
        files.len() > 0,
    ensures
        fifo_pick(files, limit).len() < files.len(),
{
    let aged = by_age(files, false);
    lemma_by_age_size(files, false);
    lemma_fifo_len(aged, 0, tables_size(files) as int, limit);
}

proof fn lemma_fifo_len(files: Seq<Arc<LiveSst>>, n: nat, total: int, limit: u64)
    requires
        n < files.len(),
    ensures
        n <= fifo_len(files, n, total, limit) < files.len(),
    decreases files.len() - n,
{
    if !(n + 1 >= files.len() || total <= limit) {
        lemma_fifo_len(files, n + 1, total - files[n as int].meta.file_size, limit);
    }
}

// ── A range of keys ──────────────────────────────────────────────

/// The tables that meet `[start, end)`.
pub open spec fn reached(
    files: Seq<Arc<LiveSst>>,
    start: Option<Seq<u8>>,
    end: Option<Seq<u8>>,
) -> Seq<Arc<LiveSst>>
    decreases files.len(),
{
    if files.len() == 0 {
        files
    } else if within_reach(files.last(), start, end) {
        reached(files.drop_last(), start, end).push(files.last())
    } else {
        reached(files.drop_last(), start, end)
    }
}

/// The first table that meets `[start, end)`, as a sequence.
pub open spec fn first_reached(
    files: Seq<Arc<LiveSst>>,
    start: Option<Seq<u8>>,
    end: Option<Seq<u8>>,
) -> Seq<Arc<LiveSst>>
    decreases files.len(),
{
    if files.len() == 0 {
        files
    } else if within_reach(files[0], start, end) {
        seq![files[0]]
    } else {
        first_reached(files.skip(1), start, end)
    }
}

/// What a compaction of `[start, end)` takes from a level next: all tables of
/// level 0 that meet the range, below it the first one that does.
pub open spec fn range_pick(
    levels: Seq<Seq<Arc<LiveSst>>>,
    level: int,
    start: Option<Seq<u8>>,
    end: Option<Seq<u8>>,
) -> Option<PickedView> {
    let inputs = if level == 0 {
        reached(levels[0], start, end)
    } else {
        first_reached(levels[level], start, end)
    };
    if inputs.len() == 0 {
        None
    } else {
        Some(with_overlaps(inputs, levels[level + 1]))
    }
}

fn find_reached(
    files: &Vec<Arc<LiveSst>>,
    start: Option<&[u8]>,
    end: Option<&[u8]>,
) -> (r: Vec<Arc<LiveSst>>)
    ensures
        r@ == reached(files@, opt_bound(start), opt_bound(end)),
{
    let mut r: Vec<Arc<LiveSst>> = Vec::new();
    let mut i: usize = 0;
    assert(files@.take(0) =~= Seq::<Arc<LiveSst>>::empty());
    while i < files.len()
        invariant
            i <= files@.len(),
            r@ == reached(files@.take(i as int), opt_bound(start), opt_bound(end)),
        decreases files@.len() - i,
    {
        proof {
            let t = files@.take(i + 1);
            assert(t.drop_last() =~= files@.take(i as int));
            assert(t.last() == files@[i as int]);
        }
        if file_overlaps_range(&files[i], start, end) {
            r.push(share(&files[i]));
        }
        i += 1;
    }
    assert(files@.take(i as int) =~= files@);
    r
}

fn find_first_reached(
    files: &Vec<Arc<LiveSst>>,
    start: Option<&[u8]>,
    end: Option<&[u8]>,
) -> (r: Vec<Arc<LiveSst>>)
    ensures
        r@ == first_reached(files@, opt_bound(start), opt_bound(end)),
{
    let mut r: Vec<Arc<LiveSst>> = Vec::new();
    let mut i: usize = 0;
    assert(files@.skip(0) =~= files@);
    while i < files.len()
        invariant
            i <= files@.len(),
            r@.len() == 0,
            first_reached(files@, opt_bound(start), opt_bound(end)) == first_reached(
                files@.skip(i as int),
                opt_bound(start),
                opt_bound(end),
            ),
        decreases files@.len() - i,
    {
        proof {
            assert(files@.skip(i as int)[0] == files@[i as int]);
            assert(files@.skip(i as int).skip(1) =~= files@.skip(i + 1));
        }
        if file_overlaps_range(&files[i], start, end) {
            r.push(share(&files[i]));
            assert(r@ =~= seq![files@[i as int]]);
            return r;
        }
        i += 1;
    }
    assert(r@ =~= files@.skip(i as int));
    r
}

/// Pick what a compaction of `[start, end)` takes from a level next.
pub fn pick_range(
    version: &Version,
    level: usize,
    start: Option<&[u8]>,
    end: Option<&[u8]>,
) -> (r: Option<Picked>)
    requires
        version.wf(),
        level + 1 < MAX_LEVELS,
    ensures
        opt_pick(r) == range_pick(
            version@.levels,
            level as int,
            opt_bound(start),
            opt_bound(end),
        ),
        r is None <==> forall|i: int|
            0 <= i < version.levels@[level as int]@.len() ==> !reaches(
                #[trigger] version.levels@[level as int]@[i],
                opt_bound(start),
                opt_bound(end),
            ),
        r matches Some(p) ==> p.inputs@.len() > 0 && forall|i: int|
            0 <= i < p.inputs@.len() ==> reaches(
                #[trigger] p.inputs@[i],
                opt_bound(start),
                opt_bound(end),
            ),
{
    proof {
        assert(version@.levels[level as int] == version.levels@[level as int]@);
        lemma_range_pick_takes_what_meets_the_range(
            version@.levels,
            level as int,
            opt_bound(start),
            opt_bound(end),
        );
    }
    let inputs = if level == 0 {
        find_reached(&version.levels[0], start, end)
    } else {
        find_first_reached(&version.levels[level], start, end)
    };
    if inputs.len() == 0 {
        None
    } else {
        Some(pick_with_overlaps(inputs, &version.levels[level + 1]))
    }
}

/// Which level a compaction of a range looks at after a pass: the same one
/// again after a table below level 0 was pushed down, otherwise the next; `None`
/// when all levels have been done.
pub open spec fn range_step(level: usize, pushed: bool) -> Option<usize> {
    if pushed && level > 0 {
        Some(level)
    } else if level + 2 < MAX_LEVELS {
        Some((level + 1) as usize)
    } else {
        None
    }
}

/// Which level a compaction of a range looks at after a pass.
pub fn next_range_level(level: usize, pushed: bool) -> (r: Option<usize>)
    requires
        level + 1 < MAX_LEVELS,
    ensures
        r == range_step(level, pushed),
{
    if pushed && level > 0 {
        Some(level)
    } else if level + 2 < MAX_LEVELS {
        Some(level + 1)
    } else {
        None
    }
}

// ── Edits ────────────────────────────────────────────────────────

/// The edits that take tables out of a level.
pub open spec fn removals(level: usize, files: Seq<Arc<LiveSst>>) -> Seq<VersionEdit> {
    files.map_values(
        |f: Arc<LiveSst>| VersionEdit::RemoveFile { level, file_id: f.meta.file_id },
    )
}

/// The edits that put tables into a level.
pub open spec fn additions(level: usize, files: Seq<Arc<LiveSst>>) -> Seq<VersionEdit> {
    files.map_values(|f: Arc<LiveSst>| VersionEdit::AddFile { level, file: f })
}

fn push_removals(edits: &mut Vec<VersionEdit>, level: usize, files: &Vec<Arc<LiveSst>>)
    ensures
        final(edits)@ == old(edits)@ + removals(level, files@),
{
    let ghost e0 = edits@;
    let ghost all = removals(level, files@);
    let mut i: usize = 0;
    assert(e0 + all.take(0) =~= e0);
    while i < files.len()
        invariant
            i <= files@.len(),
            e0 == old(edits)@,
            all == removals(level, files@),
            edits@ == e0 + all.take(i as int),
        decreases files@.len() - i,
    {
        edits.push(VersionEdit::RemoveFile { level, file_id: files[i].meta.file_id });
        assert(e0 + all.take(i + 1) =~= (e0 + all.take(i as int)).push(all[i as int]));
        i += 1;
    }
    assert(all.take(i as int) =~= all);
}

/// The edits of a compaction: the inputs leave their levels, then the outputs
/// enter the output level.
pub open spec fn edits_of(
    level: usize,
    target_level: usize,
    inputs: Seq<Arc<LiveSst>>,
    overlaps: Seq<Arc<LiveSst>>,
    outputs: Seq<Arc<LiveSst>>,
) -> Seq<VersionEdit> {
    removals(level, inputs) + removals(target_level, overlaps) + additions(target_level, outputs)
}

/// The edits of a compaction. They are applied at once.
pub fn compaction_edits(
    level: usize,
    target_level: usize,
    picked: &Picked,
    outputs: &Vec<Arc<LiveSst>>,
) -> (r: Vec<VersionEdit>)
    ensures
        r@ == edits_of(level, target_level, picked.inputs@, picked.overlaps@, outputs@),
{
    let mut edits: Vec<VersionEdit> = Vec::new();
    push_removals(&mut edits, level, &picked.inputs);
    push_removals(&mut edits, target_level, &picked.overlaps);
    let ghost e0 = edits@;
    let ghost all = additions(target_level, outputs@);
    let mut i: usize = 0;
    assert(e0 + all.take(0) =~= e0);
    while i < outputs.len()
        invariant
            i <= outputs@.len(),
            all == additions(target_level, outputs@),
            edits@ == e0 + all.take(i as int),
        decreases outputs@.len() - i,
    {
        edits.push(VersionEdit::AddFile { level: target_level, file: share(&outputs[i]) });
        assert(e0 + all.take(i + 1) =~= (e0 + all.take(i as int)).push(all[i as int]));
        i += 1;
    }
    proof {
        assert(all.take(i as int) =~= all);
        assert(e0 =~= removals(level, picked.inputs@) + removals(target_level, picked.overlaps@));
    }
    edits
}

/// The edits that drop tables from level 0.
pub fn fifo_edits(files: &Vec<Arc<LiveSst>>) -> (r: Vec<VersionEdit>)
    ensures
        r@ == removals(0, files@),
{
    let mut edits: Vec<VersionEdit> = Vec::new();
    push_removals(&mut edits, 0, files);
    assert(edits@ =~= removals(0, files@));
    edits
}

// ── The next job ─────────────────────────────────────────────────

/// What the compaction worker does next.
pub enum CompactionJob {
    /// Merge the picked tables of `level` into `target_level`.
    Merge { level: usize, target_level: usize, picked: Picked },
    /// Drop tables from level 0.
    Discard { files: Vec<Arc<LiveSst>> },
}

/// `job` is what is done next. Where all tables are in one pool, nothing is
/// done while anything is being compacted.
pub open spec fn is_next_job(
    v: Version,
    style: CompactionStyle,
    level_opts: LevelOptions,
    universal: UniversalCompactionOptions,
    fifo_limit: u64,
    busy: Set<u64>,
    job: Option<CompactionJob>,
) -> bool {
    let l0 = v.levels@[0]@;
    match style {
        CompactionStyle::Level => match leveled_pick(v, level_opts, busy) {
            Some((l, p)) => job matches Some(CompactionJob::Merge { level, target_level, picked })
                && level == l && target_level == l + 1 && picked@ == p,
            None => job is None,
        },
        CompactionStyle::Fifo => if busy.len() > 0 || fifo_pick(l0, fifo_limit).len() == 0 {
            job is None
        } else {
            job matches Some(CompactionJob::Discard { files }) && files@ == fifo_pick(
                l0,
                fifo_limit,
            )
        },
        CompactionStyle::Universal => if busy.len() > 0 {
            job is None
        } else {
            match universal_pick(l0, universal) {
                Some(files) => job matches Some(
                    CompactionJob::Merge { level, target_level, picked },
                ) && level == 0 && target_level == 0 && picked.inputs@ == files
                    && picked.overlaps@.len() == 0,
                None => job is None,
            }
        },
    }
}

/// Decide what the compaction worker does next.
pub fn pick_compaction(
    version: &Version,
    style: CompactionStyle,
    level_opts: &LevelOptions,
    universal: &UniversalCompactionOptions,
    fifo_limit: u64,
    busy: &HashSet<u64>,
) -> (r: Option<CompactionJob>)
    requires
        version.wf(),
        forall|l: int|
            0 <= l < version.levels@.len() ==> tables_size((#[trigger] version.levels@[l])@)
                <= u64::MAX,
    ensures
        is_next_job(*version, style, *level_opts, *universal, fifo_limit, busy@, r),
{
    assert(tables_size(version.levels@[0]@) <= u64::MAX);
    match style {
        CompactionStyle::Level => match pick_leveled(version, level_opts, busy) {
            Some((level, picked)) => {
                assert(level + 1 < MAX_LEVELS) by {
                    lemma_leveled_level(*version, *level_opts, busy@, 1);
                }
                Some(CompactionJob::Merge { level, target_level: level + 1, picked })
            },
            None => None,
        },
        CompactionStyle::Fifo => {
            if busy.len() > 0 {
                return None;
            }
            let files = pick_fifo(&version.levels[0], fifo_limit);
            if files.len() == 0 {
                None
            } else {
                Some(CompactionJob::Discard { files })
            }
        },
        CompactionStyle::Universal => {
            if busy.len() > 0 {
                return None;
            }
            proof {
                lemma_amplified(tables_size(version.levels@[0]@), universal.size_ratio as nat);
            }
            match pick_universal(&version.levels[0], universal) {
                Some(inputs) => Some(
                    CompactionJob::Merge {
                        level: 0,
                        target_level: 0,
                        picked: Picked { inputs, overlaps: Vec::new() },
                    },
                ),
                None => None,
            }
        },
    }
}

/// `job` is what a compaction of `[start, end)` that a caller asks for does at
/// a level. Where all tables are in one pool the range does not matter: the
/// pool is cut down to its limit, or merged into one table.
pub open spec fn is_range_job(
    v: Version,
    style: CompactionStyle,
    fifo_limit: u64,
    level: int,
    start: Option<Seq<u8>>,
    end: Option<Seq<u8>>,
    job: Option<CompactionJob>,
) -> bool {
    let l0 = v.levels@[0]@;
    match style {
        CompactionStyle::Level => match range_pick(v@.levels, level, start, end) {
            Some(p) => job matches Some(CompactionJob::Merge { level: l, target_level, picked })
                && l == level && target_level == level + 1 && picked@ == p,
            None => job is None,
        },
        CompactionStyle::Fifo => if fifo_pick(l0, fifo_limit).len() == 0 {
            job is None
        } else {
            job matches Some(CompactionJob::Discard { files }) && files@ == fifo_pick(
                l0,
                fifo_limit,
            )
        },
        CompactionStyle::Universal => if l0.len() < 2 {
            job is None
        } else {
            job matches Some(CompactionJob::Merge { level: l, target_level, picked }) && l == 0
                && target_level == 0 && picked.inputs@ == l0 && picked.overlaps@.len() == 0
        },
    }
}

/// Decide what a compaction of `[start, end)` that a caller asks for does at a
/// level.
pub fn pick_range_job(
    version: &Version,
    style: CompactionStyle,
    fifo_limit: u64,
    level: usize,
    start: Option<&[u8]>,
    end: Option<&[u8]>,
) -> (r: Option<CompactionJob>)
    requires
        version.wf(),
        level + 1 < MAX_LEVELS,
        tables_size(version.levels@[0]@) <= u64::MAX,
    ensures
        is_range_job(
            *version,
            style,
            fifo_limit,
            level as int,
            opt_bound(start),
            opt_bound(end),
            r,
        ),
{
    match style {
        CompactionStyle::Level => match pick_range(version, level, start, end) {
            Some(picked) => Some(CompactionJob::Merge { level, target_level: level + 1, picked }),
            None => None,
        },
        CompactionStyle::Fifo => {
            let files = pick_fifo(&version.levels[0], fifo_limit);
            if files.len() == 0 {
                None
            } else {
                Some(CompactionJob::Discard { files })
            }
        },
        CompactionStyle::Universal => match pick_universal_full(&version.levels[0]) {
            Some(inputs) => Some(
                CompactionJob::Merge {
                    level: 0,
                    target_level: 0,
                    picked: Picked { inputs, overlaps: Vec::new() },
                },
            ),
            None => None,
        },
    }
}

proof fn lemma_leveled_level(v: Version, opts: LevelOptions, busy: Set<u64>, from: int)
    requires
        1 <= from,
    ensures
        oversized_level(v, from, opts) matches Some(l) ==> from <= l < MAX_LEVELS - 1,
    decreases MAX_LEVELS - from,
{
    if from < MAX_LEVELS - 1 {
        lemma_leveled_level(v, opts, busy, from + 1);
    }
}

proof fn lemma_amplified(size: nat, ratio: nat)
    requires
        size <= u64::MAX,
        ratio <= u32::MAX,
    ensures
        size * (100 + ratio) <= u128::MAX,
{
    assert(size * (100 + ratio) <= 0xffff_ffff_ffff_ffff * 0x1_0000_0063) by (nonlinear_arith)
        requires
            size <= 0xffff_ffff_ffff_ffff,
            ratio <= 0xffff_ffff,
    ;
}

} // verus!
