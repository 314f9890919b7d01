//! Range tombstones: `(start, end, seq)` triples that delete every user key in
//! `[start, end)` as of `seq`.
//!
//! Memtables and tables each hold a set of range tombstones beside their
//! point entries. A set is indexed by start key with a prefix maximum of end
//! keys: a coverage check finds the last tombstone that starts at or before
//! the key, then walks back only while some earlier one can still reach it.

use crate::bytes::bytes_le;
use crate::bytes::bytes_lt;
use crate::bytes::copy_bytes;
use crate::bytes::lemma_lex_order;
use crate::bytes::lemma_lex_prefix_le;
use crate::bytes::lemma_lex_trichotomy;
use crate::bytes::lex_le;
use crate::bytes::lex_lt;
use crate::ordered::ascending;
use crate::ordered::first_ranked;
use crate::ordered::is_sort_dedup;
use crate::ordered::lemma_first_ranked_found;
use crate::ordered::sort_dedup;
use crate::ordered::Ranked;
use vstd::prelude::*;

verus! {

/// What a range tombstone says.
#[verifier::ext_equal]
pub struct TombstoneView {
    pub start: Seq<u8>,
    pub end: Seq<u8>,
    pub seq: u64,
}

impl TombstoneView {
    /// The tombstone covers `user_key`: `start <= user_key < end`.
    pub open spec fn covers(self, user_key: Seq<u8>) -> bool {
        lex_le(self.start, user_key) && lex_lt(user_key, self.end)
    }

    /// The tombstone's range and `[start, end)` reach into each other.
    pub open spec fn overlaps(self, start: Seq<u8>, end: Seq<u8>) -> bool {
        lex_lt(self.start, end) && lex_lt(start, self.end)
    }

    /// The part of the tombstone within `[start, end)`, unless it is empty.
    pub open spec fn clip(self, start: Seq<u8>, end: Seq<u8>) -> Option<TombstoneView> {
        let s = if lex_lt(self.start, start) {
            start
        } else {
            self.start
        };
        let e = if lex_lt(end, self.end) {
            end
        } else {
            self.end
        };
        if self.overlaps(start, end) && lex_lt(s, e) {
            Some(TombstoneView { start: s, end: e, seq: self.seq })
        } else {
            None
        }
    }

    /// The order in which tombstones are kept: by start, then by end, then
    /// the newest first.
    pub open spec fn precedes(self, other: TombstoneView) -> bool {
        ||| lex_lt(self.start, other.start)
        ||| self.start == other.start && lex_lt(self.end, other.end)
        ||| self.start == other.start && self.end == other.end && self.seq > other.seq
    }
}

/// Clipping keeps exactly the coverage within the bounds.
pub proof fn lemma_clip_coverage(
    t: TombstoneView,
    start: Seq<u8>,
    end: Seq<u8>,
    user_key: Seq<u8>,
)
    ensures
        (t.covers(user_key) && lex_le(start, user_key) && lex_lt(user_key, end)) <==> (t.clip(
            start,
            end,
        ) matches Some(c) && c.covers(user_key)),
        t.clip(start, end) matches Some(c) ==> c.seq == t.seq,
{
    lemma_lex_order(t.start, start, user_key);
    lemma_lex_order(start, t.start, user_key);
    lemma_lex_order(t.start, user_key, end);
    lemma_lex_order(start, user_key, t.end);
    lemma_lex_order(start, user_key, end);
    lemma_lex_order(t.start, user_key, t.end);
    lemma_lex_order(user_key, t.end, end);
    lemma_lex_order(user_key, end, t.end);
    lemma_lex_order(end, t.end, user_key);
    lemma_lex_order(t.end, end, user_key);
}

/// A single range tombstone.
#[derive(Debug)]
pub struct RangeTombstone {
    pub start: Vec<u8>,
    pub end: Vec<u8>,
    pub seq: u64,
}

impl View for RangeTombstone {
    type V = TombstoneView;

    open spec fn view(&self) -> TombstoneView {
        TombstoneView { start: self.start@, end: self.end@, seq: self.seq }
    }
}

impl RangeTombstone {
    /// The tombstone of `[start, end)` at `seq`.
    pub fn new(start: Vec<u8>, end: Vec<u8>, seq: u64) -> (r: Self)
        ensures
            r.start == start,
            r.end == end,
            r.seq == seq,
    {
        RangeTombstone { start, end, seq }
    }

    /// Does this tombstone cover `user_key`? The range is half-open.
    pub fn covers(&self, user_key: &[u8]) -> (r: bool)
        ensures
            r == self@.covers(user_key@),
    {
        bytes_le(self.start.as_slice(), user_key) && bytes_lt(user_key, self.end.as_slice())
    }

    /// Does this tombstone's range reach into `[start, end)`?
    pub fn overlaps(&self, start: &[u8], end: &[u8]) -> (r: bool)
        ensures
            r == self@.overlaps(start@, end@),
    {
        bytes_lt(self.start.as_slice(), end) && bytes_lt(start, self.end.as_slice())
    }

    /// The part of this tombstone within `[start, end)`, unless it is empty.
    pub fn clip_to(&self, start: &[u8], end: &[u8]) -> (r: Option<Self>)
        ensures
            r is Some <==> self@.clip(start@, end@) is Some,
            r matches Some(t) ==> self@.clip(start@, end@) == Some(t@),
    {
        if !self.overlaps(start, end) {
            return None;
        }
        let clipped_start = if bytes_lt(self.start.as_slice(), start) {
            copy_bytes(start)
        } else {
            copy_bytes(self.start.as_slice())
        };
        let clipped_end = if bytes_lt(end, self.end.as_slice()) {
            copy_bytes(end)
        } else {
            copy_bytes(self.end.as_slice())
        };
        if bytes_lt(clipped_start.as_slice(), clipped_end.as_slice()) {
            Some(RangeTombstone::new(clipped_start, clipped_end, self.seq))
        } else {
            None
        }
    }
}

impl Clone for RangeTombstone {
    fn clone(&self) -> (r: Self)
        ensures
            r@ == self@,
    {
        RangeTombstone {
            start: copy_bytes(self.start.as_slice()),
            end: copy_bytes(self.end.as_slice()),
            seq: self.seq,
        }
    }
}

impl Ranked for RangeTombstone {
    type Rank = TombstoneView;

    open spec fn rank(&self) -> TombstoneView {
        self@
    }

    open spec fn rank_ok(r: TombstoneView) -> bool {
        true
    }

    open spec fn rank_lt(a: TombstoneView, b: TombstoneView) -> bool {
        a.precedes(b)
    }

    proof fn lemma_rank_order(a: TombstoneView, b: TombstoneView, c: TombstoneView) {
        lemma_lex_order(a.start, b.start, c.start);
        lemma_lex_order(b.start, a.start, c.start);
        lemma_lex_order(a.end, b.end, c.end);
        lemma_lex_order(b.end, a.end, c.end);
    }

    fn ranks_before(&self, other: &Self) -> (r: bool) {
        proof {
            lemma_lex_trichotomy(self.start@, other.start@);
            lemma_lex_trichotomy(self.end@, other.end@);
        }
        if bytes_lt(self.start.as_slice(), other.start.as_slice()) {
            true
        } else if bytes_lt(other.start.as_slice(), self.start.as_slice()) {
            false
        } else if bytes_lt(self.end.as_slice(), other.end.as_slice()) {
            true
        } else if bytes_lt(other.end.as_slice(), self.end.as_slice()) {
            false
        } else {
            self.seq > other.seq
        }
    }
}

/// Put tombstones in order and drop repetitions.
pub fn sort_dedup_tombstones(tombstones: &mut Vec<RangeTombstone>)
    ensures
        is_sort_dedup(old(tombstones)@, final(tombstones)@),
{
    let mut v: Vec<RangeTombstone> = Vec::new();
    std::mem::swap(&mut v, tombstones);
    *tombstones = sort_dedup(v);
}

/// One of the tombstones says `v`.
pub open spec fn holds(s: Seq<RangeTombstone>, v: TombstoneView) -> bool {
    exists|i: int| 0 <= i < s.len() && (#[trigger] s[i])@ == v
}

/// One of the tombstones says `v` within `[start, end)`.
pub open spec fn holds_clip(
    s: Seq<RangeTombstone>,
    start: Seq<u8>,
    end: Seq<u8>,
    v: TombstoneView,
) -> bool {
    exists|i: int| 0 <= i < s.len() && (#[trigger] s[i])@.clip(start, end) == Some(v)
}

/// A tombstone is held where its rank has a first item.
proof fn lemma_holds_first(s: Seq<RangeTombstone>, v: TombstoneView)
    ensures
        holds(s, v) == (first_ranked(s, v) is Some),
{
    lemma_first_ranked_found(s, v);
    match first_ranked(s, v) {
        Some(x) => {
            let i = choose|i: int| 0 <= i < s.len() && s[i] == x;
            assert(s[i]@ == v);
        },
        None => {
            assert forall|i: int| 0 <= i < s.len() implies (#[trigger] s[i])@ != v by {
                assert(s[i].rank() != v);
            }
        },
    }
}

/// Adding a tombstone adds what it says.
proof fn lemma_holds_push(s: Seq<RangeTombstone>, t: RangeTombstone)
    ensures
        forall|v: TombstoneView| #[trigger] holds(s.push(t), v) == (holds(s, v) || t@ == v),
{
    assert forall|v: TombstoneView| #[trigger] holds(s.push(t), v) == (holds(s, v) || t@ == v) by {
        if holds(s, v) {
            let i = choose|i: int| 0 <= i < s.len() && (#[trigger] s[i])@ == v;
            assert(s.push(t)[i]@ == v);
        }
        if t@ == v {
            assert(s.push(t)[s.len() as int]@ == v);
        }
        if holds(s.push(t), v) {
            let i = choose|i: int| 0 <= i < s.push(t).len() && (#[trigger] s.push(t)[i])@ == v;
            if i < s.len() {
                assert(s[i]@ == v);
            }
        }
    }
}

/// Sorting and deduplicating keeps which tombstones are held.
pub proof fn lemma_sorted_holds_same(s: Seq<RangeTombstone>, r: Seq<RangeTombstone>)
    requires
        is_sort_dedup(s, r),
    ensures
        forall|v: TombstoneView| #[trigger] holds(r, v) == holds(s, v),
{
    assert forall|v: TombstoneView| #[trigger] holds(r, v) == holds(s, v) by {
        lemma_holds_first(r, v);
        lemma_holds_first(s, v);
        assert(first_ranked(r, v) == first_ranked(s, v));
    }
}

// ── Coverage ─────────────────────────────────────────────────────

/// The largest sequence number of a tombstone among `s` that covers
/// `user_key` and is visible at `snapshot_seq`; 0 where there is none.
pub open spec fn max_covering(s: Seq<RangeTombstone>, user_key: Seq<u8>, snapshot_seq: u64) -> u64
    decreases s.len(),
{
    if s.len() == 0 {
        0
    } else {
        let rest = max_covering(s.drop_last(), user_key, snapshot_seq);
        let t = s.last()@;
        if t.seq <= snapshot_seq && t.covers(user_key) && t.seq > rest {
            t.seq
        } else {
            rest
        }
    }
}

/// `max_covering` is the maximum.
pub proof fn lemma_max_covering(s: Seq<RangeTombstone>, user_key: Seq<u8>, snapshot_seq: u64)
    ensures
        forall|i: int|
            0 <= i < s.len() && (#[trigger] s[i])@.covers(user_key) && s[i].seq <= snapshot_seq
                ==> s[i].seq <= max_covering(s, user_key, snapshot_seq),
        max_covering(s, user_key, snapshot_seq) != 0 ==> exists|i: int|
            0 <= i < s.len() && (#[trigger] s[i])@.covers(user_key) && s[i].seq <= snapshot_seq
                && s[i].seq == max_covering(s, user_key, snapshot_seq),
        max_covering(s, user_key, snapshot_seq) <= snapshot_seq,
    decreases s.len(),
{
    if s.len() > 0 {
        let p = s.drop_last();
        lemma_max_covering(p, user_key, snapshot_seq);
        let m = max_covering(p, user_key, snapshot_seq);
        assert forall|i: int|
            0 <= i < s.len() && (#[trigger] s[i])@.covers(user_key) && s[i].seq
                <= snapshot_seq implies s[i].seq <= max_covering(s, user_key, snapshot_seq) by {
            if i < p.len() {
                assert(p[i] == s[i]);
            }
        }
        if max_covering(s, user_key, snapshot_seq) != 0 {
            if max_covering(s, user_key, snapshot_seq) == m {
                let i = choose|i: int|
                    0 <= i < p.len() && (#[trigger] p[i])@.covers(user_key) && p[i].seq
                        <= snapshot_seq && p[i].seq == m;
                assert(s[i] == p[i]);
            } else {
                assert(s[s.len() - 1] == s.last());
            }
        }
    }
}

/// Coverage depends on which tombstones there are, not on their order or on
/// repetitions.
pub proof fn lemma_max_covering_same(
    a: Seq<RangeTombstone>,
    b: Seq<RangeTombstone>,
    user_key: Seq<u8>,
    snapshot_seq: u64,
)
    requires
        forall|v: TombstoneView| #[trigger] holds(a, v) == holds(b, v),
    ensures
        max_covering(a, user_key, snapshot_seq) == max_covering(b, user_key, snapshot_seq),
{
    lemma_max_covering(a, user_key, snapshot_seq);
    lemma_max_covering(b, user_key, snapshot_seq);
    let ma = max_covering(a, user_key, snapshot_seq);
    let mb = max_covering(b, user_key, snapshot_seq);
    if ma != 0 {
        let i = choose|i: int|
            0 <= i < a.len() && (#[trigger] a[i])@.covers(user_key) && a[i].seq <= snapshot_seq
                && a[i].seq == ma;
        assert(holds(a, a[i]@));
        let j = choose|j: int| 0 <= j < b.len() && (#[trigger] b[j])@ == a[i]@;
        assert(b[j]@.covers(user_key) && b[j].seq == ma);
    }
    if mb != 0 {
        let i = choose|i: int|
            0 <= i < b.len() && (#[trigger] b[i])@.covers(user_key) && b[i].seq <= snapshot_seq
                && b[i].seq == mb;
        assert(holds(b, b[i]@));
        assert(holds(a, b[i]@));
        let j = choose|j: int| 0 <= j < a.len() && (#[trigger] a[j])@ == b[i]@;
        assert(a[j]@.covers(user_key) && a[j].seq == mb);
    }
}

/// Sorting and deduplicating tombstones does not change what they cover.
pub proof fn lemma_sorted_covers_same(
    s: Seq<RangeTombstone>,
    r: Seq<RangeTombstone>,
    user_key: Seq<u8>,
    snapshot_seq: u64,
)
    requires
        is_sort_dedup(s, r),
    ensures
        max_covering(s, user_key, snapshot_seq) == max_covering(r, user_key, snapshot_seq),
{
    lemma_sorted_holds_same(s, r);
    lemma_max_covering_same(s, r, user_key, snapshot_seq);
}

/// No end among the first `i + 1` tombstones comes after `p[i]`.
pub open spec fn is_prefix_max_end(s: Seq<RangeTombstone>, p: Seq<Vec<u8>>) -> bool {
    &&& p.len() == s.len()
    &&& forall|i: int, j: int|
        0 <= j <= i < s.len() ==> lex_le((#[trigger] s[j]).end@, (#[trigger] p[i])@)
}

/// The running maxima of the ends of `tombstones`.
fn build_prefix_max_end(tombstones: &Vec<RangeTombstone>) -> (p: Vec<Vec<u8>>)
    ensures
        is_prefix_max_end(tombstones@, p@),
{
    let mut prefix: Vec<Vec<u8>> = Vec::new();
    let mut i: usize = 0;
    while i < tombstones.len()
        invariant
            i <= tombstones@.len(),
            prefix@.len() == i,
            forall|a: int, b: int|
                0 <= b <= a < i ==> lex_le(
                    (#[trigger] tombstones@[b]).end@,
                    (#[trigger] prefix@[a])@,
                ),
        decreases tombstones@.len() - i,
    {
        let end = tombstones[i].end.as_slice();
        let next = if i > 0 && bytes_le(end, prefix[i - 1].as_slice()) {
            copy_bytes(prefix[i - 1].as_slice())
        } else {
            copy_bytes(end)
        };
        proof {
            assert forall|b: int| 0 <= b <= i implies lex_le(
                (#[trigger] tombstones@[b]).end@,
                next@,
            ) by {
                if b < i {
                    assert(lex_le(tombstones@[b].end@, prefix@[i - 1]@));
                    lemma_lex_order(prefix@[i - 1]@, tombstones@[i as int].end@, next@);
                    lemma_lex_order(tombstones@[b].end@, prefix@[i - 1]@, next@);
                }
            }
        }
        prefix.push(next);
        i += 1;
    }
    prefix
}

/// A set of range tombstones, indexed for coverage checks.
#[derive(Debug)]
pub struct RangeTombstoneSet {
    tombstones: Vec<RangeTombstone>,
    prefix_max_end: Vec<Vec<u8>>,
}

impl RangeTombstoneSet {
    /// The tombstones, in order.
    pub closed spec fn items(&self) -> Seq<RangeTombstone> {
        self.tombstones@
    }

    /// The tombstones are in order without repetition, and the index is right.
    pub closed spec fn wf(&self) -> bool {
        &&& ascending(self.tombstones@)
        &&& is_prefix_max_end(self.tombstones@, self.prefix_max_end@)
    }

    /// A set without tombstones.
    pub fn empty() -> (r: Self)
        ensures
            r.wf(),
            r.items() == Seq::<RangeTombstone>::empty(),
    {
        RangeTombstoneSet { tombstones: Vec::new(), prefix_max_end: Vec::new() }
    }

    /// The set of the given tombstones.
    pub fn from_vec(tombstones: Vec<RangeTombstone>) -> (r: Self)
        ensures
            r.wf(),
            is_sort_dedup(tombstones@, r.items()),
    {
        let mut tombstones = tombstones;
        sort_dedup_tombstones(&mut tombstones);
        let prefix_max_end = build_prefix_max_end(&tombstones);
        RangeTombstoneSet { tombstones, prefix_max_end }
    }

    /// Add a tombstone to the set.
    pub fn push(&mut self, tombstone: RangeTombstone)
        ensures
            final(self).wf(),
            is_sort_dedup(old(self).items().push(tombstone), final(self).items()),
    {
        self.tombstones.push(tombstone);
        sort_dedup_tombstones(&mut self.tombstones);
        self.prefix_max_end = build_prefix_max_end(&self.tombstones);
    }

    /// Whether there is no tombstone.
    pub fn is_empty(&self) -> (r: bool)
        ensures
            r == (self.items().len() == 0),
    {
        self.tombstones.is_empty()
    }

    /// The tombstones in order.
    pub fn as_slice(&self) -> (r: &[RangeTombstone])
        ensures
            r@ == self.items(),
    {
        self.tombstones.as_slice()
    }

    /// Copies of the tombstones in order.
    pub fn to_vec(&self) -> (r: Vec<RangeTombstone>)
        ensures
            r@.len() == self.items().len(),
            forall|i: int| 0 <= i < r@.len() ==> (#[trigger] r@[i])@ == self.items()[i]@,
    {
        copy_tombstones(self.tombstones.as_slice())
    }

    /// How many of the tombstones start at or before `key` (`inclusive`), or
    /// strictly before it.
    fn count_starting(&self, key: &[u8], inclusive: bool) -> (n: usize)
        requires
            self.wf(),
        ensures
            n <= self.items().len(),
            forall|i: int|
                0 <= i < n ==> (if inclusive {
                    lex_le((#[trigger] self.items()[i]).start@, key@)
                } else {
                    lex_lt(self.items()[i].start@, key@)
                }),
            forall|i: int|
                n <= i < self.items().len() ==> (if inclusive {
                    lex_lt(key@, (#[trigger] self.items()[i]).start@)
                } else {
                    lex_le(key@, self.items()[i].start@)
                }),
    {
        let mut lo: usize = 0;
        let mut hi: usize = self.tombstones.len();
        while lo < hi
            invariant
                self.wf(),
                lo <= hi <= self.tombstones@.len(),
                forall|i: int|
                    0 <= i < lo ==> (if inclusive {
                        lex_le((#[trigger] self.tombstones@[i]).start@, key@)
                    } else {
                        lex_lt(self.tombstones@[i].start@, key@)
                    }),
                forall|i: int|
                    hi <= i < self.tombstones@.len() ==> (if inclusive {
                        lex_lt(key@, (#[trigger] self.tombstones@[i]).start@)
                    } else {
                        lex_le(key@, self.tombstones@[i].start@)
                    }),
            decreases hi - lo,
        {
            let mid: usize = lo + (hi - lo) / 2;
            let start = self.tombstones[mid].start.as_slice();
            let before = if inclusive {
                bytes_le(start, key)
            } else {
                bytes_lt(start, key)
            };
            proof {
                lemma_lex_order(self.tombstones@[mid as int].start@, key@, key@);
                lemma_lex_order(key@, self.tombstones@[mid as int].start@, key@);
                assert forall|i: int| 0 <= i < self.tombstones@.len() && i != mid implies (if i
                    < mid {
                    lex_le((#[trigger] self.tombstones@[i]).start@, start@)
                } else {
                    lex_le(start@, self.tombstones@[i].start@)
                }) by {
                    if i < mid {
                        assert(self.tombstones@[i].rank().precedes(
                            self.tombstones@[mid as int].rank(),
                        ));
                    } else {
                        assert(self.tombstones@[mid as int].rank().precedes(
                            self.tombstones@[i].rank(),
                        ));
                    }
                }
                assert forall|i: int| 0 <= i < self.tombstones@.len() implies {
                    &&& lex_le((#[trigger] self.tombstones@[i]).start@, start@) && lex_le(
                        start@,
                        key@,
                    ) ==> lex_le(self.tombstones@[i].start@, key@)
                    &&& lex_le(self.tombstones@[i].start@, start@) && lex_lt(start@, key@)
                        ==> lex_lt(self.tombstones@[i].start@, key@)
                    &&& lex_le(start@, self.tombstones@[i].start@) && lex_lt(key@, start@)
                        ==> lex_lt(key@, self.tombstones@[i].start@)
                    &&& lex_le(start@, self.tombstones@[i].start@) && lex_le(key@, start@)
                        ==> lex_le(key@, self.tombstones@[i].start@)
                } by {
                    lemma_lex_order(self.tombstones@[i].start@, start@, key@);
                    lemma_lex_order(key@, start@, self.tombstones@[i].start@);
                }
            }
            if before {
                lo = mid + 1;
            } else {
                hi = mid;
            }
        }
        lo
    }

    /// The largest sequence number of a tombstone that covers `user_key` and
    /// is visible at `snapshot_seq`; 0 where there is none.
    pub fn max_covering_seq(&self, user_key: &[u8], snapshot_seq: u64) -> (r: u64)
        requires
            self.wf(),
        ensures
            r == max_covering(self.items(), user_key@, snapshot_seq),
    {
        let mut idx: usize = self.count_starting(user_key, true);
        let mut best: u64 = 0;
        let ghost s = self.tombstones@;
        proof {
            lemma_max_covering(s, user_key@, snapshot_seq);
            assert forall|i: int| idx <= i < s.len() implies !(#[trigger] s[i])@.covers(
                user_key@,
            ) by {
                lemma_lex_order(user_key@, s[i].start@, user_key@);
            }
        }
        while idx > 0
            invariant
                self.wf(),
                s == self.tombstones@,
                idx <= s.len(),
                forall|i: int|
                    idx <= i < s.len() && (#[trigger] s[i])@.covers(user_key@) && s[i].seq
                        <= snapshot_seq ==> s[i].seq <= best,
                best != 0 ==> exists|i: int|
                    0 <= i < s.len() && (#[trigger] s[i])@.covers(user_key@) && s[i].seq
                        <= snapshot_seq && s[i].seq == best,
            ensures
                forall|i: int|
                    0 <= i < s.len() && (#[trigger] s[i])@.covers(user_key@) && s[i].seq
                        <= snapshot_seq ==> s[i].seq <= best,
                best != 0 ==> exists|i: int|
                    0 <= i < s.len() && (#[trigger] s[i])@.covers(user_key@) && s[i].seq
                        <= snapshot_seq && s[i].seq == best,
            decreases idx,
        {
            idx -= 1;
            if bytes_le(self.prefix_max_end[idx].as_slice(), user_key) {
                proof {
                    assert forall|i: int| 0 <= i <= idx implies !(#[trigger] s[i])@.covers(
                        user_key@,
                    ) by {
                        let m = self.prefix_max_end@[idx as int]@;
                        assert(lex_le(s[i].end@, m));
                        lemma_lex_order(s[i].end@, m, user_key@);
                        lemma_lex_order(user_key@, s[i].end@, user_key@);
                    }
                }
                break;
            }
            let rt = &self.tombstones[idx];
            if rt.seq <= snapshot_seq && rt.covers(user_key) && rt.seq > best {
                best = rt.seq;
                assert(s[idx as int]@.covers(user_key@));
            }
        }
        best
    }

    /// The parts of the tombstones within `[start, end)`, in order and
    /// without repetition.
    pub fn clipped_overlaps(&self, start: &[u8], end: &[u8]) -> (r: Vec<RangeTombstone>)
        requires
            self.wf(),
        ensures
            ascending(r@),
            forall|v: TombstoneView| #[trigger]
                holds(r@, v) <==> holds_clip(self.items(), start@, end@, v),
    {
        let mut result: Vec<RangeTombstone> = Vec::new();
        let ghost s = self.tombstones@;
        let mut idx: usize = self.count_starting(end, false);
        proof {
            assert forall|i: int| idx <= i < s.len() implies (#[trigger] s[i])@.clip(start@, end@)
                is None by {
                lemma_lex_order(end@, s[i].start@, end@);
            }
        }
        while idx > 0
            invariant
                self.wf(),
                s == self.tombstones@,
                idx <= s.len(),
                forall|j: int|
                    idx <= j < s.len() && (#[trigger] s[j])@.clip(start@, end@) is Some ==> holds(
                        result@,
                        s[j]@.clip(start@, end@)->0,
                    ),
                forall|v: TombstoneView| #[trigger]
                    holds(result@, v) ==> holds_clip(s, start@, end@, v),
            ensures
                forall|j: int|
                    0 <= j < s.len() && (#[trigger] s[j])@.clip(start@, end@) is Some ==> holds(
                        result@,
                        s[j]@.clip(start@, end@)->0,
                    ),
                forall|v: TombstoneView| #[trigger]
                    holds(result@, v) ==> holds_clip(s, start@, end@, v),
            decreases idx,
        {
            idx -= 1;
            if bytes_le(self.prefix_max_end[idx].as_slice(), start) {
                proof {
                    assert forall|i: int| 0 <= i <= idx implies (#[trigger] s[i])@.clip(
                        start@,
                        end@,
                    ) is None by {
                        let m = self.prefix_max_end@[idx as int]@;
                        assert(lex_le(s[i].end@, m));
                        lemma_lex_order(s[i].end@, m, start@);
                        lemma_lex_order(start@, s[i].end@, start@);
                    }
                }
                break;
            }
            let ghost before = result@;
            if let Some(clipped) = self.tombstones[idx].clip_to(start, end) {
                result.push(clipped);
                proof {
                    assert(s[idx as int]@.clip(start@, end@) == Some(clipped@));
                    lemma_holds_push(before, clipped);
                }
            }
        }
        let ghost found = result@;
        sort_dedup_tombstones(&mut result);
        proof {
            lemma_sorted_holds_same(found, result@);
            assert forall|v: TombstoneView| #[trigger]
                holds(result@, v) <==> holds_clip(s, start@, end@, v) by {
                assert(holds(result@, v) == holds(found, v));
                if holds_clip(s, start@, end@, v) {
                    let j = choose|j: int|
                        0 <= j < s.len() && (#[trigger] s[j])@.clip(start@, end@) == Some(v);
                    assert(holds(found, s[j]@.clip(start@, end@)->0));
                }
            }
        }
        result
    }
}

/// What a list of tombstones says.
pub open spec fn tombstone_views(s: Seq<RangeTombstone>) -> Seq<TombstoneView> {
    s.map_values(|t: RangeTombstone| t@)
}

/// Lists that say the same cover the same.
pub proof fn lemma_same_views(
    a: Seq<RangeTombstone>,
    b: Seq<RangeTombstone>,
    user_key: Seq<u8>,
    snapshot_seq: u64,
)
    requires
        tombstone_views(a) == tombstone_views(b),
    ensures
        max_covering(a, user_key, snapshot_seq) == max_covering(b, user_key, snapshot_seq),
        forall|v: TombstoneView| #[trigger] holds(a, v) == holds(b, v),
{
    assert forall|v: TombstoneView| #[trigger] holds(a, v) == holds(b, v) by {
        assert(tombstone_views(a).len() == a.len() && tombstone_views(b).len() == b.len());
        if holds(a, v) {
            let i = choose|i: int| 0 <= i < a.len() && (#[trigger] a[i])@ == v;
            assert(tombstone_views(a)[i] == v);
            assert(b[i]@ == v);
        }
        if holds(b, v) {
            let i = choose|i: int| 0 <= i < b.len() && (#[trigger] b[i])@ == v;
            assert(tombstone_views(b)[i] == v);
            assert(a[i]@ == v);
        }
    }
    lemma_max_covering_same(a, b, user_key, snapshot_seq);
}

/// Copies of tombstones.
pub fn copy_tombstones(s: &[RangeTombstone]) -> (r: Vec<RangeTombstone>)
    ensures
        r@.len() == s@.len(),
        forall|i: int| 0 <= i < r@.len() ==> (#[trigger] r@[i])@ == s@[i]@,
        tombstone_views(r@) == tombstone_views(s@),
{
    let mut r: Vec<RangeTombstone> = Vec::new();
    let mut i: usize = 0;
    while i < s.len()
        invariant
            i <= s@.len(),
            r@.len() == i,
            forall|j: int| 0 <= j < i ==> (#[trigger] r@[j])@ == s@[j]@,
        decreases s@.len() - i,
    {
        r.push(s[i].clone());
        i += 1;
    }
    assert(tombstone_views(r@) =~= tombstone_views(s@));
    r
}

/// The largest visible covering sequence number in an unindexed slice.
pub fn max_covering_seq(
    tombstones: &[RangeTombstone],
    user_key: &[u8],
    snapshot_seq: u64,
) -> (r: u64)
    ensures
        r == max_covering(tombstones@, user_key@, snapshot_seq),
{
    let copy = copy_tombstones(tombstones);
    let ghost c = copy@;
    let set = RangeTombstoneSet::from_vec(copy);
    proof {
        lemma_sorted_covers_same(c, set.items(), user_key@, snapshot_seq);
        lemma_same_views(c, tombstones@, user_key@, snapshot_seq);
    }
    set.max_covering_seq(user_key, snapshot_seq)
}

/// The least byte string after `key`: an exclusive upper bound that contains
/// `key` and nothing after it.
pub fn exclusive_successor(key: &[u8]) -> (r: Vec<u8>)
    ensures
        r@ == key@.push(0u8),
{
    let mut end = copy_bytes(key);
    end.push(0);
    end
}

/// The exclusive successor comes after the key with nothing in between.
pub proof fn lemma_exclusive_successor(key: Seq<u8>, other: Seq<u8>)
    ensures
        lex_lt(key, key.push(0u8)),
        lex_lt(key, other) ==> lex_le(key.push(0u8), other),
    decreases key.len(),
{
    let zero: Seq<u8> = seq![0u8];
    assert(key.push(0u8) =~= key + zero);
    lemma_lex_prefix_le(key, zero);
    if lex_lt(key, other) {
        if key.len() == 0 {
            reveal_with_fuel(lex_lt, 2);
            assert(key.push(0u8).skip(1) =~= Seq::<u8>::empty());
            if other.len() == 1 && other[0] == 0 {
                assert(other =~= key.push(0u8));
            }
        } else if key[0] == other[0] {
            lemma_exclusive_successor(key.skip(1), other.skip(1));
            assert(key.push(0u8).skip(1) =~= key.skip(1).push(0u8));
            if key.skip(1).push(0u8) == other.skip(1) {
                assert(key.push(0u8) =~= seq![key[0]] + key.skip(1).push(0u8));
                assert(other =~= seq![other[0]] + other.skip(1));
            }
        }
    }
}

/// A tombstone covers its start and what lies between, and not its end.
pub proof fn lemma_covers_from_start_to_before_end(t: TombstoneView, key: Seq<u8>)
    ensures
        t.covers(key) <==> !lex_lt(key, t.start) && lex_lt(key, t.end),
        t.covers(t.start) <==> lex_lt(t.start, t.end),
        !t.covers(t.end),
{
    lemma_lex_order(t.start, key, t.start);
    lemma_lex_order(key, t.start, key);
    lemma_lex_order(t.start, t.start, t.start);
    crate::bytes::lemma_lex_irreflexive(t.end);
}

} // verus!
