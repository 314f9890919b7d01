//! Taking in tables that were built outside.
//!
//! A table comes in as one write: all its entries and range tombstones get one
//! new sequence number.

use super::batch::SizeLimits;
use super::block::pairs;
use super::block::sorted_entries;
use super::block_entry::Pair;
use super::compaction_pick::file_meets;
use super::compaction_pick::meets;
use super::internal_key::decode_internal_key;
use super::internal_key::encode_internal_key;
use super::internal_key::ik_lt;
use super::internal_key::internal_key;
use super::internal_key::is_internal;
use super::internal_key::lemma_decode_encoded;
use super::internal_key::lemma_internal_order;
use super::internal_key::seq_of;
use super::internal_key::type_of;
use super::internal_key::user_of;
use super::manifest::Version;
use super::manifest_record::MAX_LEVELS;
use super::range_tombstone::tombstone_views;
use super::range_tombstone::RangeTombstone;
use super::range_tombstone::TombstoneView;
use super::sstable::LiveSst;
use super::table_build::greatest_key;
use super::table_build::least_key;
use crate::bytes::bytes_lt;
use crate::bytes::copy_bytes;
use crate::bytes::lemma_lex_order;
use crate::bytes::lex_le;
use crate::bytes::lex_lt;
use crate::error::Error;
use crate::error::ErrorKind;
use std::sync::Arc;
use vstd::prelude::*;

verus! {

/// How tables are taken in.
#[derive(Debug, Clone, Copy)]
pub struct IngestOptions {
    /// Put the table under everything else; it must not overlap anything.
    pub ingest_behind: bool,
    /// Refuse while a snapshot is live, which could not see the table.
    pub snapshot_consistency: bool,
}

// ── Checking a source ────────────────────────────────────────────

/// All keys and values of a source are within the limits.
pub open spec fn source_fits(
    limits: SizeLimits,
    es: Seq<Pair>,
    rts: Seq<TombstoneView>,
) -> bool {
    &&& forall|i: int|
        0 <= i < es.len() ==> limits.key_fits(user_of((#[trigger] es[i]).0)) && limits.value_fits(
            es[i].1,
        )
    &&& forall|i: int|
        0 <= i < rts.len() ==> limits.key_fits((#[trigger] rts[i]).start) && limits.key_fits(
            rts[i].end,
        )
}

/// The check may accept the key.
pub open spec fn accepted<F: Fn(&[u8]) -> Result<(), Error>>(check: F, key: Seq<u8>) -> bool {
    exists|s: &[u8]| s@ == key && #[trigger] check.ensures((s,), Ok(()))
}

/// The check may reject the key with this error.
pub open spec fn rejected<F: Fn(&[u8]) -> Result<(), Error>>(
    check: F,
    key: Seq<u8>,
    e: Error,
) -> bool {
    exists|s: &[u8]| s@ == key && #[trigger] check.ensures((s,), Err(e))
}

/// The check accepted every user key and both ends of every tombstone.
pub open spec fn source_accepted<F: Fn(&[u8]) -> Result<(), Error>>(
    check: F,
    es: Seq<Pair>,
    rts: Seq<TombstoneView>,
) -> bool {
    &&& forall|i: int| 0 <= i < es.len() ==> accepted(check, user_of((#[trigger] es[i]).0))
    &&& forall|i: int|
        0 <= i < rts.len() ==> accepted(check, (#[trigger] rts[i]).start) && accepted(
            check,
            rts[i].end,
        )
}

/// The check rejected a user key, or an end of a tombstone, with this error.
pub open spec fn source_rejected<F: Fn(&[u8]) -> Result<(), Error>>(
    check: F,
    es: Seq<Pair>,
    rts: Seq<TombstoneView>,
    e: Error,
) -> bool {
    ||| exists|i: int| 0 <= i < es.len() && rejected(check, user_of((#[trigger] es[i]).0), e)
    ||| exists|i: int|
        0 <= i < rts.len() && (rejected(check, (#[trigger] rts[i]).start, e) || rejected(
            check,
            rts[i].end,
            e,
        ))
}

/// The range of a source: from the least user key of its entries and
/// tombstones to the greatest.
pub open spec fn source_range(es: Seq<Pair>, rts: Seq<TombstoneView>) -> Option<
    (Seq<u8>, Seq<u8>),
> {
    match (least_key(es, rts), greatest_key(es, rts)) {
        (Some(lo), Some(hi)) => Some((lo, hi)),
        _ => None,
    }
}

proof fn lemma_checked<F: Fn(&[u8]) -> Result<(), Error>>(check: F, s: &[u8], r: Result<(), Error>)
    requires
        check.ensures((s,), r),
    ensures
        r matches Err(e) ==> rejected(check, s@, e),
        r is Ok ==> accepted(check, s@),
{
    match r {
        Ok(u) => {
            assert(u == ());
            assert(check.ensures((s,), Ok(())));
        },
        Err(e) => {
            assert(check.ensures((s,), Err(e)));
            assert(rejected(check, s@, e));
        },
    }
}

fn check_entry<F: Fn(&[u8]) -> Result<(), Error>>(
    limits: &SizeLimits,
    user_key: &[u8],
    value: &[u8],
    check: &F,
) -> (r: Result<(), Error>)
    requires
        forall|s: &[u8]| #[trigger] check.requires((s,)),
    ensures
        r is Ok ==> limits.key_fits(user_key@) && limits.value_fits(value@) && accepted(
            *check,
            user_key@,
        ),
        r matches Err(e) ==> (e.kind == ErrorKind::InvalidInput && !(limits.key_fits(user_key@)
            && limits.value_fits(value@))) || rejected(*check, user_key@, e),
{
    match limits.validate_prefixed_key_size(user_key) {
        Ok(()) => {},
        Err(e) => return Err(e),
    }
    match limits.validate_value_size(value) {
        Ok(()) => {},
        Err(e) => return Err(e),
    }
    let r = check(user_key);
    proof {
        lemma_checked(*check, user_key, r);
    }
    r
}

fn check_tombstone<F: Fn(&[u8]) -> Result<(), Error>>(
    limits: &SizeLimits,
    t: &RangeTombstone,
    check: &F,
) -> (r: Result<(), Error>)
    requires
        forall|s: &[u8]| #[trigger] check.requires((s,)),
    ensures
        r is Ok ==> limits.key_fits(t@.start) && limits.key_fits(t@.end) && accepted(
            *check,
            t@.start,
        ) && accepted(*check, t@.end),
        r matches Err(e) ==> (e.kind == ErrorKind::InvalidInput && !(limits.key_fits(t@.start)
            && limits.key_fits(t@.end))) || rejected(*check, t@.start, e) || rejected(*check, t@.end, e),
{
    let start = t.start.as_slice();
    let end = t.end.as_slice();
    match limits.validate_prefixed_key_size(start) {
        Ok(()) => {},
        Err(e) => return Err(e),
    }
    match limits.validate_prefixed_key_size(end) {
        Ok(()) => {},
        Err(e) => return Err(e),
    }
    let r = check(start);
    proof {
        lemma_checked(*check, start, r);
    }
    match r {
        Ok(()) => {},
        Err(e) => return Err(e),
    }
    let r = check(end);
    proof {
        lemma_checked(*check, end, r);
    }
    r
}

/// Check a source before anything is changed, and return its range. `check`
/// decides whether a key belongs to a column family. A source that holds
/// nothing is refused.
pub fn validate_source<F: Fn(&[u8]) -> Result<(), Error>>(
    limits: &SizeLimits,
    entries: &Vec<(Vec<u8>, Vec<u8>)>,
    tombstones: &Vec<RangeTombstone>,
    check: &F,
) -> (r: Result<(Vec<u8>, Vec<u8>), Error>)
    requires
        sorted_entries(pairs(entries@)),
        forall|s: &[u8]| #[trigger] check.requires((s,)),
    ensures
        ({
            let es = pairs(entries@);
            let rts = tombstone_views(tombstones@);
            match r {
                Ok((lo, hi)) => source_fits(*limits, es, rts) && source_accepted(*check, es, rts)
                    && source_range(es, rts) == Some((lo@, hi@)),
                Err(e) => (e.kind == ErrorKind::InvalidInput && (!source_fits(*limits, es, rts)
                    || source_range(es, rts) is None)) || source_rejected(*check, es, rts, e),
            }
        }),
{
    let ghost es = pairs(entries@);
    let ghost rts = tombstone_views(tombstones@);
    let n: usize = entries.len();
    let mut i: usize = 0;
    while i < n
        invariant
            i <= n == entries@.len(),
            es == pairs(entries@),
            rts == tombstone_views(tombstones@),
            sorted_entries(es),
            forall|s: &[u8]| #[trigger] check.requires((s,)),
            forall|j: int|
                0 <= j < i ==> limits.key_fits(user_of((#[trigger] es[j]).0)) && limits.value_fits(
                    es[j].1,
                ) && accepted(*check, user_of(es[j].0)),
        decreases n - i,
    {
        proof {
            assert(es[i as int] == (entries@[i as int].0@, entries@[i as int].1@));
            assert(is_internal(es[i as int].0));
        }
        let (user_key, _, _) = decode_internal_key(entries[i].0.as_slice());
        match check_entry(limits, user_key, entries[i].1.as_slice(), check) {
            Ok(()) => {},
            Err(e) => {
                assert(source_fits(*limits, es, rts) ==> limits.key_fits(user_of(es[i as int].0)));
                return Err(e);
            },
        }
        i += 1;
    }
    let m: usize = tombstones.len();
    let mut lo: Option<Vec<u8>> = None;
    let mut hi: Option<Vec<u8>> = None;
    assert(rts.take(0) =~= Seq::<TombstoneView>::empty());
    if n > 0 {
        proof {
            assert(es[0] == (entries@[0].0@, entries@[0].1@));
            assert(es[n - 1] == (entries@[n - 1].0@, entries@[n - 1].1@));
            assert(is_internal(es[0].0) && is_internal(es[n - 1].0));
        }
        let (first, _, _) = decode_internal_key(entries[0].0.as_slice());
        lo = Some(copy_bytes(first));
        let (last, _, _) = decode_internal_key(entries[n - 1].0.as_slice());
        hi = Some(copy_bytes(last));
    }
    let mut j: usize = 0;
    while j < m
        invariant
            j <= m == tombstones@.len(),
            rts == tombstone_views(tombstones@),
            forall|s: &[u8]| #[trigger] check.requires((s,)),
            forall|k: int|
                0 <= k < j ==> limits.key_fits((#[trigger] rts[k]).start) && limits.key_fits(
                    rts[k].end,
                ) && accepted(*check, rts[k].start) && accepted(*check, rts[k].end),
            lo is Some <==> least_key(es, rts.take(j as int)) is Some,
            lo matches Some(k) ==> least_key(es, rts.take(j as int)) == Some(k@),
            hi is Some <==> greatest_key(es, rts.take(j as int)) is Some,
            hi matches Some(k) ==> greatest_key(es, rts.take(j as int)) == Some(k@),
        decreases m - j,
    {
        let t = &tombstones[j];
        proof {
            assert(rts[j as int] == t@);
            assert(rts.take(j + 1).drop_last() =~= rts.take(j as int));
        }
        match check_tombstone(limits, t, check) {
            Ok(()) => {},
            Err(e) => {
                assert(source_fits(*limits, es, rts) ==> limits.key_fits(rts[j as int].start));
                return Err(e);
            },
        }
        let below = match &lo {
            Some(x) => bytes_lt(t.start.as_slice(), x.as_slice()),
            None => true,
        };
        if below {
            lo = Some(copy_bytes(t.start.as_slice()));
        }
        let above = match &hi {
            Some(x) => bytes_lt(x.as_slice(), t.end.as_slice()),
            None => true,
        };
        if above {
            hi = Some(copy_bytes(t.end.as_slice()));
        }
        j += 1;
    }
    assert(rts.take(j as int) =~= rts);
    match (lo, hi) {
        (Some(lo), Some(hi)) => Ok((lo, hi)),
        _ => Err(Error::new(ErrorKind::InvalidInput, "ingest: source file is empty")),
    }
}

// ── The level ────────────────────────────────────────────────────

/// A table of the level meets the range.
pub open spec fn level_meets(files: Seq<Arc<LiveSst>>, lo: Seq<u8>, hi: Seq<u8>) -> bool {
    exists|i: int| 0 <= i < files.len() && #[trigger] meets(files[i], lo, hi)
}

/// A table of the tree meets the range.
pub open spec fn tree_meets(levels: Seq<Seq<Arc<LiveSst>>>, lo: Seq<u8>, hi: Seq<u8>) -> bool {
    exists|l: int| 0 <= l < levels.len() && #[trigger] level_meets(levels[l], lo, hi)
}

/// The level that a source with this range goes to: the deepest where it
/// overlaps nothing, otherwise level 0, the only one whose tables may overlap.
/// A source that has to go under everything else is refused where it overlaps
/// anything.
pub fn compute_target_level(
    version: &Version,
    smallest: &[u8],
    largest: &[u8],
    ingest_behind: bool,
) -> (r: Result<usize, Error>)
    requires
        version.wf(),
    ensures
        r is Ok <==> !(ingest_behind && tree_meets(version@.levels, smallest@, largest@)),
        r matches Ok(level) ==> level == if tree_meets(version@.levels, smallest@, largest@) {
            0
        } else {
            MAX_LEVELS - 1
        },
        r matches Err(e) ==> e.kind == ErrorKind::InvalidInput,
{
    let ghost levels = version@.levels;
    let mut level: usize = 0;
    while level < version.levels.len()
        invariant
            version.wf(),
            level <= version.levels@.len(),
            levels == version@.levels,
            forall|l: int|
                0 <= l < level ==> !level_meets(#[trigger] levels[l], smallest@, largest@),
        decreases version.levels@.len() - level,
    {
        let files = &version.levels[level];
        assert(levels[level as int] == files@);
        let mut i: usize = 0;
        while i < files.len()
            invariant
                i <= files@.len(),
                level < levels.len(),
                levels[level as int] == files@,
                levels == version@.levels,
                forall|j: int| 0 <= j < i ==> !meets(#[trigger] files@[j], smallest@, largest@),
            decreases files@.len() - i,
        {
            if file_meets(&files[i], smallest, largest) {
                proof {
                    assert(meets(files@[i as int], smallest@, largest@));
                    assert(level_meets(levels[level as int], smallest@, largest@));
                }
                if ingest_behind {
                    return Err(
                        Error::new(
                            ErrorKind::InvalidInput,
                            "ingest_behind: input range overlaps existing SSTable",
                        ),
                    );
                }
                return Ok(0);
            }
            i += 1;
        }
        level += 1;
    }
    Ok(MAX_LEVELS - 1)
}

// ── New sequence numbers ─────────────────────────────────────────

/// An entry with another sequence number.
pub open spec fn restamped(p: Pair, seq: u64) -> Pair {
    (internal_key(user_of(p.0), seq, type_of(p.0)), p.1)
}

/// Entries with one sequence number.
pub open spec fn all_restamped(es: Seq<Pair>, seq: u64) -> Seq<Pair> {
    es.map_values(|p: Pair| restamped(p, seq))
}

/// The entries have one version of each user key, in order.
pub open spec fn users_ascend(es: Seq<Pair>) -> bool {
    &&& forall|i: int| 0 <= i < es.len() ==> is_internal((#[trigger] es[i]).0)
    &&& forall|i: int, j: int|
        0 <= i < j < es.len() ==> lex_lt(
            user_of((#[trigger] es[i]).0),
            user_of((#[trigger] es[j]).0),
        )
}

/// Give all entries one sequence number. Their order stays.
pub fn restamp_entries(entries: &Vec<(Vec<u8>, Vec<u8>)>, seq: u64) -> (r: Vec<(Vec<u8>, Vec<u8>)>)
    requires
        users_ascend(pairs(entries@)),
    ensures
        pairs(r@) == all_restamped(pairs(entries@), seq),
        sorted_entries(pairs(r@)),
        forall|i: int| 0 <= i < pairs(r@).len() ==> seq_of((#[trigger] pairs(r@)[i]).0) == seq,
{
    let ghost es = pairs(entries@);
    let ghost all = all_restamped(es, seq);
    let mut out: Vec<(Vec<u8>, Vec<u8>)> = Vec::new();
    let mut i: usize = 0;
    assert(pairs(out@) =~= all.take(0));
    while i < entries.len()
        invariant
            i <= entries@.len(),
            es == pairs(entries@),
            all == all_restamped(es, seq),
            users_ascend(es),
            pairs(out@) == all.take(i as int),
        decreases entries@.len() - i,
    {
        let ghost before = pairs(out@);
        proof {
            assert(es[i as int] == (entries@[i as int].0@, entries@[i as int].1@));
            assert(is_internal(es[i as int].0));
        }
        let (user_key, _, value_type) = decode_internal_key(entries[i].0.as_slice());
        let key = encode_internal_key(user_key, seq, value_type);
        let value = copy_bytes(entries[i].1.as_slice());
        let ghost p = (key@, value@);
        out.push((key, value));
        proof {
            assert(p == all[i as int]);
            assert(pairs(out@) =~= before.push(p));
            assert(all.take(i + 1) =~= all.take(i as int).push(p));
        }
        i += 1;
    }
    proof {
        assert(all.take(i as int) =~= all);
        lemma_restamped_sorted(es, seq);
    }
    out
}

proof fn lemma_restamped_sorted(es: Seq<Pair>, seq: u64)
    requires
        users_ascend(es),
    ensures
        sorted_entries(all_restamped(es, seq)),
        forall|i: int|
            0 <= i < es.len() ==> seq_of((#[trigger] all_restamped(es, seq)[i]).0) == seq,
{
    let all = all_restamped(es, seq);
    assert forall|i: int| 0 <= i < all.len() implies is_internal((#[trigger] all[i]).0) && seq_of(
        all[i].0,
    ) == seq && user_of(all[i].0) == user_of(es[i].0) by {
        lemma_decode_encoded(user_of(es[i].0), seq, type_of(es[i].0));
    }
    assert forall|i: int, j: int| 0 <= i < j < all.len() implies ik_lt(
        (#[trigger] all[i]).0,
        (#[trigger] all[j]).0,
    ) by {
        assert(lex_lt(user_of(es[i].0), user_of(es[j].0)));
        assert(user_of(all[i].0) == user_of(es[i].0) && user_of(all[j].0) == user_of(es[j].0));
        lemma_internal_order(all[i].0, all[j].0);
    }
}

/// Tombstones with one sequence number.
pub open spec fn stamped_views(rts: Seq<TombstoneView>, seq: u64) -> Seq<TombstoneView> {
    rts.map_values(|t: TombstoneView| TombstoneView { seq, ..t })
}

/// Give all tombstones one sequence number.
pub fn restamp_tombstones(tombstones: &Vec<RangeTombstone>, seq: u64) -> (r: Vec<RangeTombstone>)
    ensures
        tombstone_views(r@) == stamped_views(tombstone_views(tombstones@), seq),
{
    let mut out: Vec<RangeTombstone> = Vec::new();
    let mut i: usize = 0;
    while i < tombstones.len()
        invariant
            i <= tombstones@.len(),
            out@.len() == i,
            forall|j: int|
                0 <= j < i ==> (#[trigger] out@[j])@ == (TombstoneView {
                    seq,
                    ..tombstones@[j]@
                }),
        decreases tombstones@.len() - i,
    {
        let t = &tombstones[i];
        out.push(
            RangeTombstone::new(
                copy_bytes(t.start.as_slice()),
                copy_bytes(t.end.as_slice()),
                seq,
            ),
        );
        i += 1;
    }
    assert(tombstone_views(out@) =~= stamped_views(tombstone_views(tombstones@), seq));
    out
}

/// Whether entries have one version of each user key, in order, as a source
/// has to.
pub fn is_source_order(entries: &Vec<(Vec<u8>, Vec<u8>)>) -> (r: bool)
    requires
        sorted_entries(pairs(entries@)),
    ensures
        r == users_ascend(pairs(entries@)),
{
    let ghost es = pairs(entries@);
    let n: usize = entries.len();
    let mut i: usize = 1;
    while i < n
        invariant
            1 <= i,
            n == entries@.len(),
            i <= n || n == 0,
            es == pairs(entries@),
            sorted_entries(es),
            forall|j: int, k: int|
                0 <= j < k < i && k < n ==> lex_lt(
                    user_of((#[trigger] es[j]).0),
                    user_of((#[trigger] es[k]).0),
                ),
        decreases n - i,
    {
        proof {
            assert(es[i as int] == (entries@[i as int].0@, entries@[i as int].1@));
            assert(es[i - 1] == (entries@[i - 1].0@, entries@[i - 1].1@));
            assert(is_internal(es[i as int].0) && is_internal(es[i - 1].0));
        }
        let (before, _, _) = decode_internal_key(entries[i - 1].0.as_slice());
        let (user_key, _, _) = decode_internal_key(entries[i].0.as_slice());
        if !bytes_lt(before, user_key) {
            proof {
                assert(!lex_lt(user_of(es[i - 1].0), user_of(es[i as int].0)));
            }
            return false;
        }
        proof {
            assert forall|j: int, k: int| 0 <= j < k < i + 1 && k < n implies lex_lt(
                user_of((#[trigger] es[j]).0),
                user_of((#[trigger] es[k]).0),
            ) by {
                if k == i && j < i - 1 {
                    assert(lex_lt(user_of(es[j].0), user_of(es[i - 1].0)));
                    crate::bytes::lemma_lex_order(
                        user_of(es[j].0),
                        user_of(es[i - 1].0),
                        user_of(es[i as int].0),
                    );
                }
            }
        }
        i += 1;
    }
    true
}

// ── Where a source goes, and what becomes of it ──────────────────

/// Where no table of the tree meets a range, no key of the range lies in the
/// range of any table; and where one does, one of its keys, an end of one of
/// the two, is in both.
pub proof fn lemma_ranges_that_do_not_meet_share_no_key(
    levels: Seq<Seq<Arc<LiveSst>>>,
    lo: Seq<u8>,
    hi: Seq<u8>,
)
    requires
        lex_le(lo, hi),
        forall|l: int, i: int|
            0 <= l < levels.len() && 0 <= i < levels[l].len() ==> lex_le(
                (#[trigger] levels[l][i]).meta.smallest_key@,
                levels[l][i].meta.largest_key@,
            ),
    ensures
        tree_meets(levels, lo, hi) <==> exists|l: int, i: int, key: Seq<u8>|
            #![trigger levels[l][i], lex_le(lo, key)]
            {
                &&& 0 <= l < levels.len() && 0 <= i < levels[l].len()
                &&& lex_le(lo, key) && lex_le(key, hi)
                &&& lex_le(levels[l][i].meta.smallest_key@, key)
                &&& lex_le(key, levels[l][i].meta.largest_key@)
            },
{
    if tree_meets(levels, lo, hi) {
        let l = choose|l: int| 0 <= l < levels.len() && #[trigger] level_meets(levels[l], lo, hi);
        let i = choose|i: int| 0 <= i < levels[l].len() && #[trigger] meets(levels[l][i], lo, hi);
        let (a, b) = (levels[l][i].meta.smallest_key@, levels[l][i].meta.largest_key@);
        lemma_lex_order(lo, a, lo);
        lemma_lex_order(a, lo, a);
        lemma_lex_order(lo, lo, lo);
        lemma_lex_order(a, a, a);
        let key = if lex_le(lo, a) {
            a
        } else {
            lo
        };
        assert(lex_le(lo, key) && lex_le(key, hi) && lex_le(a, key) && lex_le(key, b));
    }
    if exists|l: int, i: int, key: Seq<u8>|
        #![trigger levels[l][i], lex_le(lo, key)]
        {
            &&& 0 <= l < levels.len() && 0 <= i < levels[l].len()
            &&& lex_le(lo, key) && lex_le(key, hi)
            &&& lex_le(levels[l][i].meta.smallest_key@, key)
            &&& lex_le(key, levels[l][i].meta.largest_key@)
        } {
        let (l, i, key) = choose|l: int, i: int, key: Seq<u8>|
            #![trigger levels[l][i], lex_le(lo, key)]
            {
                &&& 0 <= l < levels.len() && 0 <= i < levels[l].len()
                &&& lex_le(lo, key) && lex_le(key, hi)
                &&& lex_le(levels[l][i].meta.smallest_key@, key)
                &&& lex_le(key, levels[l][i].meta.largest_key@)
            };
        let (a, b) = (levels[l][i].meta.smallest_key@, levels[l][i].meta.largest_key@);
        lemma_lex_order(a, key, hi);
        lemma_lex_order(lo, key, b);
        assert(meets(levels[l][i], lo, hi));
        assert(level_meets(levels[l], lo, hi));
    }
}

/// A new sequence number changes nothing else of an entry or a tombstone, and
/// all get the same.
pub proof fn lemma_restamping_changes_sequence_numbers_alone(
    es: Seq<Pair>,
    rts: Seq<TombstoneView>,
    seq: u64,
)
    ensures
        all_restamped(es, seq).len() == es.len(),
        forall|i: int|
            #![trigger all_restamped(es, seq)[i]]
            0 <= i < es.len() ==> {
                let p = all_restamped(es, seq)[i];
                &&& is_internal(p.0)
                &&& user_of(p.0) == user_of(es[i].0)
                &&& type_of(p.0) == type_of(es[i].0)
                &&& seq_of(p.0) == seq
                &&& p.1 == es[i].1
            },
        stamped_views(rts, seq).len() == rts.len(),
        forall|i: int|
            #![trigger stamped_views(rts, seq)[i]]
            0 <= i < rts.len() ==> {
                let t = stamped_views(rts, seq)[i];
                t.start == rts[i].start && t.end == rts[i].end && t.seq == seq
            },
{
    assert forall|i: int|
        #![trigger all_restamped(es, seq)[i]]
        0 <= i < es.len() implies {
        let p = all_restamped(es, seq)[i];
        &&& is_internal(p.0)
        &&& user_of(p.0) == user_of(es[i].0)
        &&& type_of(p.0) == type_of(es[i].0)
        &&& seq_of(p.0) == seq
        &&& p.1 == es[i].1
    } by {
        lemma_decode_encoded(user_of(es[i].0), seq, type_of(es[i].0));
    }
}

/// The range of a source has every key of its entries and tombstones in it, and
/// its ends are among them.
pub proof fn lemma_source_range_spans_the_source(es: Seq<Pair>, rts: Seq<TombstoneView>)
    requires
        sorted_entries(es),
    ensures
        source_range(es, rts) is None <==> es.len() == 0 && rts.len() == 0,
        source_range(es, rts) matches Some((lo, hi)) ==> {
            &&& forall|i: int|
                0 <= i < es.len() ==> !lex_lt(user_of((#[trigger] es[i]).0), lo) && !lex_lt(
                    hi,
                    user_of(es[i].0),
                )
            &&& forall|i: int|
                0 <= i < rts.len() ==> !lex_lt((#[trigger] rts[i]).start, lo) && !lex_lt(
                    hi,
                    rts[i].end,
                )
            &&& (exists|i: int| 0 <= i < es.len() && user_of((#[trigger] es[i]).0) == lo) || (
            exists|i: int| 0 <= i < rts.len() && (#[trigger] rts[i]).start == lo)
            &&& (exists|i: int| 0 <= i < es.len() && user_of((#[trigger] es[i]).0) == hi) || (
            exists|i: int| 0 <= i < rts.len() && (#[trigger] rts[i]).end == hi)
        },
{
    super::table_build::lemma_range_spans_what_is_there(es, rts);
}

} // verus!
