//! A cursor over the entries of one block that moves both ways.
//!
//! Keys are prefix-compressed, so a step back decodes from the nearest restart
//! point on. The offsets of the entries are collected on the first step back.

use super::block::announced_restart_array;
use super::block::block_bytes;
use super::block::boundary;
use super::block::entries_before;
use super::block::every;
use super::block::fresh_at;
use super::block::lemma_boundary_suffix;
use super::block::lemma_built_block_decodes;
use super::block::lemma_every;
use super::block::restarts_at;
use super::block::sorted_entries;
use super::block::well_placed;
use super::block::Block;
use super::block::BlockBuilder;
use super::block::RESTART_INTERVAL;
use super::block_entry::check_entry;
use super::block_entry::decode_entry_at;
use super::block_entry::encoded_entry_size;
use super::block_entry::entry_key;
use super::block_entry::entry_ok;
use super::block_entry::entry_size;
use super::block_entry::entry_value;
use super::block_entry::lemma_parse_fresh;
use super::block_entry::lemma_parse_step;
use super::block_entry::parse;
use super::block_entry::Pair;
use super::internal_key::ik_lt;
use super::internal_key::internal_key_lt;
use super::internal_key::is_internal;
use super::internal_key::lemma_internal_total_order;
use super::level_iter::first_from;
use super::level_iter::first_pos;
use super::level_iter::last_pos;
use super::level_iter::last_upto;
use super::level_iter::lemma_first_from;
use super::level_iter::lemma_last_upto;
use super::level_iter::pos_after;
use super::level_iter::pos_before;
use vstd::prelude::*;
use vstd::slice::slice_subrange;

verus! {

// ── Where entries start ──────────────────────────────────────────

/// Where entry `i` of a run starts.
pub open spec fn start_of(s: Seq<u8>, i: nat) -> int
    decreases i,
{
    if i == 0 {
        0
    } else {
        start_of(s, (i - 1) as nat) + entry_size(s.skip(start_of(s, (i - 1) as nat)))
    }
}

/// The key before entry `i`.
pub open spec fn key_before(es: Seq<Pair>, i: int) -> Seq<u8> {
    if i <= 0 {
        Seq::empty()
    } else {
        es[i - 1].0
    }
}

/// From where entry `i` starts, the run is the entries from `i` on.
proof fn lemma_start_of(s: Seq<u8>, es: Seq<Pair>, i: nat)
    requires
        parse(s, Seq::empty()) == Some(es),
        i <= es.len(),
    ensures
        0 <= start_of(s, i) <= s.len(),
        parse(s.skip(start_of(s, i)), key_before(es, i as int)) == Some(es.skip(i as int)),
        i < es.len() <==> start_of(s, i) < s.len(),
        i > 0 ==> start_of(s, (i - 1) as nat) + 3 <= start_of(s, i),
    decreases i,
{
    if i == 0 {
        assert(s.skip(0) =~= s);
        assert(es.skip(0) =~= es);
        if s.len() > 0 {
            lemma_parse_step(s, Seq::empty());
        }
    } else {
        let j = (i - 1) as nat;
        lemma_start_of(s, es, j);
        let t = s.skip(start_of(s, j));
        let prev = key_before(es, j as int);
        lemma_parse_step(t, prev);
        assert(es.skip(j as int)[0] == es[j as int]);
        assert(es.skip(j as int).skip(1) =~= es.skip(i as int));
        assert(t.skip(entry_size(t) as int) =~= s.skip(start_of(s, i)));
        let rest = s.skip(start_of(s, i));
        if rest.len() > 0 {
            lemma_parse_step(rest, key_before(es, i as int));
        }
    }
}

/// The entry at `start_of(s, i)`.
proof fn lemma_entry_at(s: Seq<u8>, es: Seq<Pair>, i: nat)
    requires
        parse(s, Seq::empty()) == Some(es),
        i < es.len(),
    ensures
        0 <= start_of(s, i) < s.len(),
        entry_ok(s.skip(start_of(s, i)), key_before(es, i as int).len()),
        start_of(s, i) + entry_size(s.skip(start_of(s, i))) == start_of(s, i + 1),
        start_of(s, i) + 3 <= start_of(s, i + 1) <= s.len(),
        entry_key(s.skip(start_of(s, i)), key_before(es, i as int)) == es[i as int].0,
        entry_value(s.skip(start_of(s, i))) == es[i as int].1,
{
    lemma_start_of(s, es, i);
    lemma_start_of(s, es, i + 1);
    lemma_parse_step(s.skip(start_of(s, i)), key_before(es, i as int));
    assert(es.skip(i as int)[0] == es[i as int]);
}

/// A later entry starts later.
proof fn lemma_starts_ascend(s: Seq<u8>, es: Seq<Pair>, i: nat, j: nat)
    requires
        parse(s, Seq::empty()) == Some(es),
        i < j <= es.len(),
    ensures
        start_of(s, i) < start_of(s, j),
    decreases j,
{
    lemma_start_of(s, es, j);
    if i + 1 < j {
        lemma_starts_ascend(s, es, i, (j - 1) as nat);
    }
}

/// An entry starts at a boundary.
proof fn lemma_boundary_is_start(s: Seq<u8>, prev: Seq<u8>, off: int)
    requires
        parse(s, prev) is Some,
        boundary(s, prev, off),
    ensures
        entries_before(s, prev, off) <= parse(s, prev)->0.len(),
        off == start_of(s, entries_before(s, prev, off)),
    decreases s.len(),
{
    if off > 0 {
        lemma_parse_step(s, prev);
        let n = entry_size(s) as int;
        let t = s.skip(n);
        let k = entry_key(s, prev);
        lemma_boundary_is_start(t, k, off - n);
        let m = entries_before(t, k, off - n);
        lemma_shifted(s, t, prev, k, m);
    }
}

/// Entry `m + 1` of a run is entry `m` of the run without the first entry.
proof fn lemma_shifted(s: Seq<u8>, t: Seq<u8>, prev: Seq<u8>, k: Seq<u8>, m: nat)
    requires
        parse(s, prev) is Some,
        s.len() > 0,
        t == s.skip(entry_size(s) as int),
        k == entry_key(s, prev),
        m <= parse(t, k)->0.len(),
    ensures
        start_of(s, m + 1) == entry_size(s) + start_of(t, m),
        0 <= start_of(t, m) <= t.len(),
    decreases m,
{
    lemma_parse_step(s, prev);
    assert(s.skip(0) =~= s);
    assert(start_of(s, 0) == 0 && start_of(t, 0) == 0);
    if m > 0 {
        let j = (m - 1) as nat;
        lemma_shifted(s, t, prev, k, j);
        assert(t.skip(start_of(t, j)) =~= s.skip(start_of(s, m)));
        lemma_within(t, k, m);
    }
}

/// Entries start within the run.
proof fn lemma_within(s: Seq<u8>, prev: Seq<u8>, i: nat)
    requires
        parse(s, prev) is Some,
        i <= parse(s, prev)->0.len(),
    ensures
        0 <= start_of(s, i) <= s.len(),
        parse(s.skip(start_of(s, i)), last_before(parse(s, prev)->0, prev, i as int)) == Some(
            parse(s, prev)->0.skip(i as int),
        ),
    decreases i,
{
    let es = parse(s, prev)->0;
    if i == 0 {
        assert(s.skip(0) =~= s);
        assert(es.skip(0) =~= es);
    } else {
        let j = (i - 1) as nat;
        lemma_within(s, prev, j);
        let t = s.skip(start_of(s, j));
        lemma_parse_step(t, last_before(es, prev, j as int));
        assert(es.skip(j as int)[0] == es[j as int]);
        assert(es.skip(j as int).skip(1) =~= es.skip(i as int));
        assert(t.skip(entry_size(t) as int) =~= s.skip(start_of(s, i)));
    }
}

/// The key before entry `i` of a run after `prev`.
spec fn last_before(es: Seq<Pair>, prev: Seq<u8>, i: int) -> Seq<u8> {
    if i <= 0 {
        prev
    } else {
        es[i - 1].0
    }
}

/// The block has a restart point every [`RESTART_INTERVAL`] entries, as a
/// builder writes it.
pub open spec fn regular(b: Block) -> bool {
    &&& well_placed(b.region(), b.restarts())
    &&& restarts_at(
        b.region(),
        b.restarts(),
        b.entries(),
        every(RESTART_INTERVAL as nat, b.restarts().len()),
    )
    &&& b.entries().len() <= b.restarts().len() * RESTART_INTERVAL
}

/// In a regular block restart point `j` is where entry `j * RESTART_INTERVAL`
/// starts, with its key written whole.
proof fn lemma_regular(b: Block, j: int)
    requires
        b.wf(),
        regular(b),
        0 <= j < b.restarts().len(),
    ensures
        j * RESTART_INTERVAL <= b.entries().len(),
        b.restarts()[j] == start_of(b.region(), (j * RESTART_INTERVAL) as nat),
        parse(b.region().skip(b.restarts()[j] as int), Seq::empty()) == Some(
            b.entries().skip(j * RESTART_INTERVAL),
        ),
{
    let region = b.region();
    let es = b.entries();
    let off = b.restarts()[j] as int;
    let n = b.restarts().len();
    lemma_every(RESTART_INTERVAL as nat, n);
    assert(every(RESTART_INTERVAL as nat, n)[j] == j * RESTART_INTERVAL);
    lemma_boundary_is_start(region, Seq::empty(), off);
    lemma_boundary_suffix(region, Seq::empty(), off);
    let m = entries_before(region, Seq::empty(), off) as int;
    if off == 0 {
        assert(region.skip(0) =~= region);
        assert(es.skip(0) =~= es);
    }
    assert(es.skip(m).len() == es.skip(j * RESTART_INTERVAL).len());
}

/// Entries start at boundaries.
proof fn lemma_start_is_boundary(s: Seq<u8>, prev: Seq<u8>, i: nat)
    requires
        parse(s, prev) is Some,
        i <= parse(s, prev)->0.len(),
    ensures
        boundary(s, prev, start_of(s, i)),
    decreases s.len(),
{
    if i > 0 {
        lemma_parse_step(s, prev);
        let t = s.skip(entry_size(s) as int);
        let k = entry_key(s, prev);
        lemma_shifted(s, t, prev, k, (i - 1) as nat);
        lemma_start_is_boundary(t, k, (i - 1) as nat);
    }
}

/// Restart point `j` is in its place.
spec fn in_place(b: Block, j: int) -> bool {
    &&& 16 * j <= b.entries().len()
    &&& b.restarts()[j] == start_of(b.region(), (16 * j) as nat)
    &&& fresh_at(b.region(), b.restarts()[j] as int)
}

/// A block with its restart points in their places is regular.
proof fn lemma_is_regular(b: Block)
    requires
        b.wf(),
        b.entries().len() <= 16 * b.restarts().len(),
        forall|j: int| 0 <= j < b.restarts().len() ==> #[trigger] in_place(b, j),
    ensures
        regular(b),
{
    let region = b.region();
    let es = b.entries();
    let rs = b.restarts();
    let at = every(RESTART_INTERVAL as nat, rs.len());
    lemma_every(RESTART_INTERVAL as nat, rs.len());
    assert forall|i: int, j: int| 0 <= i <= j < rs.len() implies (#[trigger] rs[i]) <= (
    #[trigger] rs[j]) by {
        assert(in_place(b, i) && in_place(b, j));
        if i < j {
            lemma_starts_ascend(region, es, (16 * i) as nat, (16 * j) as nat);
        }
    }
    assert forall|j: int| 0 <= j < rs.len() implies boundary(
        region,
        Seq::empty(),
        #[trigger] rs[j] as int,
    ) && fresh_at(region, rs[j] as int) by {
        assert(in_place(b, j));
        lemma_start_is_boundary(region, Seq::empty(), (16 * j) as nat);
    }
    assert forall|j: int| 0 <= j < rs.len() implies (#[trigger] rs[j]) <= region.len() && at[j]
        <= es.len() && parse(region.skip(rs[j] as int), Seq::empty()) == Some(
        es.skip(at[j] as int),
    ) by {
        let n = (16 * j) as nat;
        assert(in_place(b, j));
        lemma_start_of(region, es, n);
        lemma_parse_fresh(region.skip(rs[j] as int), key_before(es, n as int), Seq::empty());
        assert(at[j] == n);
    }
}

/// In a regular block an entry at a restart point has its key written whole.
proof fn lemma_regular_is_fresh(b: Block, j: int)
    requires
        regular(b),
        0 <= j < b.restarts().len(),
    ensures
        fresh_at(b.region(), b.restarts()[j] as int),
{
    assert(b.restarts()[j] <= b.restarts()[j]);
}

/// Whether a block that was read has its restart points where a cursor looks
/// for them.
pub fn is_regular(block: &Block) -> (r: bool)
    requires
        block.wf(),
    ensures
        r == regular(*block),
{
    let data = block.entry_data();
    let len: usize = data.len();
    let ghost region = block.region();
    let ghost es = block.entries();
    let mut offsets: Vec<usize> = Vec::new();
    let mut pos: usize = 0;
    while pos < len
        invariant
            data@ == region,
            len == data@.len(),
            parse(region, Seq::empty()) == Some(es),
            offsets@.len() <= es.len(),
            pos == start_of(region, offsets@.len()),
            pos <= len,
            offsets@ == starts(region, offsets@.len()),
        decreases len - pos,
    {
        let ghost n = offsets@.len();
        proof {
            lemma_start_of(region, es, n);
            lemma_entry_at(region, es, n);
        }
        offsets.push(pos);
        assert(offsets@ =~= starts(region, n + 1));
        pos = pos + encoded_entry_size(data, pos);
    }
    let count: usize = offsets.len();
    proof {
        lemma_start_of(region, es, offsets@.len());
        assert(count == es.len());
    }
    offsets.push(pos);
    assert(offsets@ =~= starts(region, es.len() + 1));
    let restarts: usize = block.restart_count();
    let whole: usize = count / RESTART_INTERVAL;
    let needed: usize = if count % RESTART_INTERVAL == 0 {
        whole
    } else {
        whole + 1
    };
    if restarts < needed {
        assert(es.len() > 16 * restarts);
        return false;
    }
    assert(es.len() <= 16 * restarts);
    let mut j: usize = 0;
    while j < restarts
        invariant
            block.wf(),
            data@ == region,
            len == data@.len(),
            region == block.region(),
            es == block.entries(),
            count == es.len(),
            whole == count / RESTART_INTERVAL,
            restarts == block.restarts().len(),
            es.len() <= 16 * restarts,
            offsets@ == starts(region, es.len() + 1),
            j <= restarts,
            forall|i: int| 0 <= i < j ==> #[trigger] in_place(*block, i),
        decreases restarts - j,
    {
        if j > whole {
            proof {
                if regular(*block) {
                    lemma_regular(*block, j as int);
                }
            }
            return false;
        }
        let at: usize = block.restart_offset(j);
        let n: usize = j * RESTART_INTERVAL;
        proof {
            lemma_start_of(region, es, n as nat);
            assert(offsets@[n as int] == start_of(region, n as nat));
        }
        if at != offsets[n] {
            proof {
                if regular(*block) {
                    lemma_regular(*block, j as int);
                }
            }
            return false;
        }
        if at < len {
            proof {
                lemma_entry_at(region, es, n as nat);
            }
            if check_entry(data, at, 0).is_none() {
                proof {
                    if regular(*block) {
                        lemma_regular_is_fresh(*block, j as int);
                    }
                }
                return false;
            }
        }
        assert(in_place(*block, j as int));
        j += 1;
    }
    proof {
        lemma_is_regular(*block);
    }
    true
}

/// A block that a builder with the usual interval writes is regular.
pub proof fn lemma_built_block_is_regular(builder: BlockBuilder, block: Block)
    requires
        builder.wf(),
        builder.interval() == RESTART_INTERVAL,
        builder.region().len() <= u32::MAX,
        block.bytes() == block_bytes(builder.region(), builder.restarts()),
        block.restarts() == announced_restart_array(block.bytes()),
    ensures
        regular(block),
{
    lemma_built_block_decodes(builder, block);
}

// ── The cursor ───────────────────────────────────────────────────

/// The offsets at which the entries of a run start.
pub open spec fn starts(s: Seq<u8>, n: nat) -> Seq<usize> {
    Seq::new(n, |i: int| start_of(s, i as nat) as usize)
}

/// A cursor over the entries of a block.
pub struct BlockCursor<'a> {
    block: &'a Block,
    entry_pos: usize,
    next_entry_pos: usize,
    cached_key: Vec<u8>,
    cached_value_offset: usize,
    cached_value_len: usize,
    valid: bool,
    current_entry_index: Option<usize>,
    entry_offsets: Option<Vec<usize>>,
    at: Ghost<int>,
}

impl<'a> BlockCursor<'a> {
    /// The entries of the block.
    pub closed spec fn run(&self) -> Seq<Pair> {
        self.block.entries()
    }

    /// The current position.
    pub closed spec fn cur(&self) -> Option<int> {
        if self.valid {
            Some(self.at@)
        } else {
            None
        }
    }

    closed spec fn base(&self) -> bool {
        let es = self.block.entries();
        let region = self.block.region();
        &&& self.block.wf()
        &&& regular(*self.block)
        &&& sorted_entries(es)
        &&& region.len() <= usize::MAX
        &&& self.entry_offsets matches Some(v) ==> v@ == starts(region, es.len())
    }

    /// What is cached is entry `at`.
    closed spec fn holds_entry(&self) -> bool {
        let es = self.block.entries();
        let region = self.block.region();
        &&& 0 <= self.at@ < es.len()
        &&& self.entry_pos == start_of(region, self.at@ as nat)
        &&& self.next_entry_pos == start_of(region, (self.at@ + 1) as nat)
        &&& self.cached_key@ == es[self.at@].0
        &&& self.cached_value_offset + self.cached_value_len <= region.len()
        &&& region.subrange(
            self.cached_value_offset as int,
            self.cached_value_offset + self.cached_value_len,
        ) == es[self.at@].1
        &&& self.current_entry_index matches Some(i) ==> i == self.at@
    }

    /// The block is sound, and the current entry is decoded.
    pub closed spec fn wf(&self) -> bool {
        &&& self.base()
        &&& self.valid ==> self.holds_entry()
    }

    /// The block of the cursor is the same as that of another.
    pub closed spec fn same_block(&self, other: &Self) -> bool {
        self.block == other.block
    }

    /// A cursor without a position.
    pub fn new(block: &'a Block) -> (r: Self)
        requires
            block.wf(),
            regular(*block),
            sorted_entries(block.entries()),
        ensures
            r.wf(),
            r.run() == block.entries(),
            r.cur() is None,
    {
        let len: usize = block.entry_data().len();
        BlockCursor {
            block,
            entry_pos: 0,
            next_entry_pos: 0,
            cached_key: Vec::new(),
            cached_value_offset: 0,
            cached_value_len: 0,
            valid: false,
            current_entry_index: None,
            entry_offsets: None,
            at: Ghost(0),
        }
    }

    /// Decode the entry at `entry_pos`, which is entry `i`, after its key
    /// before.
    fn decode_current(&mut self, Ghost(i): Ghost<nat>)
        requires
            old(self).base(),
            i <= old(self).block.entries().len(),
            old(self).entry_pos == start_of(old(self).block.region(), i),
            old(self).cached_key@ == key_before(old(self).block.entries(), i as int),
        ensures
            final(self).wf(),
            final(self).block == old(self).block,
            final(self).cur() == if i < old(self).block.entries().len() {
                Some(i as int)
            } else {
                None
            },
    {
        let data = self.block.entry_data();
        let ghost es = self.block.entries();
        let ghost region = self.block.region();
        proof {
            lemma_start_of(region, es, i);
        }
        if self.entry_pos >= data.len() {
            self.valid = false;
            return;
        }
        proof {
            lemma_entry_at(region, es, i);
        }
        let (consumed, val_off, val_len) = decode_entry_at(
            data,
            self.entry_pos,
            &mut self.cached_key,
        );
        self.next_entry_pos = self.entry_pos + consumed;
        self.cached_value_offset = val_off;
        self.cached_value_len = val_len;
        self.current_entry_index = match &self.entry_offsets {
            Some(offsets) => find_offset(offsets, self.entry_pos),
            None => None,
        };
        self.valid = true;
        self.at = Ghost(i as int);
        proof {
            let s = region.skip(self.entry_pos as int);
            assert(region.subrange(val_off as int, val_off + val_len) =~= entry_value(s));
            if let Some(k) = self.current_entry_index {
                assert(starts(region, es.len())[k as int] == start_of(region, k as nat) as usize);
                lemma_start_of(region, es, k as nat);
                if k < i {
                    lemma_starts_ascend(region, es, k as nat, i);
                } else if k > i {
                    lemma_starts_ascend(region, es, i, k as nat);
                }
            }
        }
    }

    /// Go to the first entry.
    pub fn seek_to_first(&mut self)
        requires
            old(self).wf(),
        ensures
            final(self).wf(),
            final(self).run() == old(self).run(),
            final(self).same_block(old(self)),
            final(self).cur() == first_pos(old(self).run().len()),
    {
        self.entry_pos = 0;
        self.cached_key = Vec::new();
        assert(self.cached_key@ =~= Seq::<u8>::empty());
        self.decode_current(Ghost(0));
    }

    /// Go to the first entry at or after `target`.
    pub fn seek(&mut self, target: &[u8])
        requires
            old(self).wf(),
            is_internal(target@),
        ensures
            final(self).wf(),
            final(self).run() == old(self).run(),
            first_from(old(self).run(), target@, final(self).cur()),
    {
        self.seek_to_first();
        loop
            invariant
                self.wf(),
                self.block == old(self).block,
                is_internal(target@),
                match self.cur() {
                    Some(i) => forall|j: int|
                        0 <= j < i ==> ik_lt((#[trigger] self.run()[j]).0, target@),
                    None => forall|j: int|
                        0 <= j < self.run().len() ==> ik_lt((#[trigger] self.run()[j]).0, target@),
                },
            ensures
                self.wf(),
                self.block == old(self).block,
                first_from(self.run(), target@, self.cur()),
            decreases
                    match self.cur() {
                        Some(i) => self.run().len() - i,
                        None => 0,
                    },
        {
            if !self.valid {
                break;
            }
            if !internal_key_lt(self.cached_key.as_slice(), target) {
                proof {
                    lemma_first_from(self.run(), target@, self.at@);
                }
                break;
            }
            self.advance();
        }
    }

    /// Go to the next entry.
    pub fn advance(&mut self)
        requires
            old(self).wf(),
        ensures
            final(self).wf(),
            final(self).run() == old(self).run(),
            final(self).same_block(old(self)),
            final(self).cur() == pos_after(old(self).cur(), old(self).run().len()),
    {
        if !self.valid {
            return;
        }
        let ghost i = (self.at@ + 1) as nat;
        self.entry_pos = self.next_entry_pos;
        self.decode_current(Ghost(i));
    }

    /// Collect where the entries start.
    fn build_entry_offsets(&mut self)
        requires
            old(self).base(),
        ensures
            final(self).base(),
            final(self).entry_offsets is Some,
            final(self).entry_offsets->0@ == starts(
                old(self).block.region(),
                old(self).block.entries().len(),
            ),
            *final(self) == (BlockCursor { entry_offsets: final(self).entry_offsets, ..*old(self) }),
    {
        let data = self.block.entry_data();
        let ghost es = self.block.entries();
        let ghost region = self.block.region();
        let mut offsets: Vec<usize> = Vec::new();
        let mut pos: usize = 0;
        while pos < data.len()
            invariant
                data@ == region,
                parse(region, Seq::empty()) == Some(es),
                region.len() <= usize::MAX,
                offsets@.len() <= es.len(),
                pos == start_of(region, offsets@.len()),
                offsets@ == starts(region, offsets@.len()),
            decreases data@.len() - pos,
        {
            let ghost n = offsets@.len();
            proof {
                lemma_start_of(region, es, n);
                lemma_entry_at(region, es, n);
            }
            offsets.push(pos);
            assert(offsets@ =~= starts(region, n + 1));
            pos = pos + encoded_entry_size(data, pos);
        }
        proof {
            lemma_start_of(region, es, offsets@.len());
        }
        self.entry_offsets = Some(offsets);
    }

    /// Where the nearest restart point before entry `target_idx` is, and which
    /// entry starts there.
    fn restart_before(&self, target_idx: usize) -> (r: (usize, usize))
        requires
            self.base(),
            target_idx < self.block.entries().len(),
        ensures
            r.1 <= target_idx,
            r.0 == start_of(self.block.region(), r.1 as nat),
            parse(self.block.region().skip(r.0 as int), Seq::empty()) == Some(
                self.block.entries().skip(r.1 as int),
            ),
    {
        let restart_idx: usize = target_idx / RESTART_INTERVAL;
        let ghost es = self.block.entries();
        let ghost n = self.block.restarts().len();
        proof {
            assert(restart_idx < n) by (nonlinear_arith)
                requires
                    restart_idx * 16 <= target_idx,
                    target_idx < es.len(),
                    es.len() <= n * 16,
            ;
            lemma_regular(*self.block, restart_idx as int);
            assert(self.block.region().skip(0) =~= self.block.region());
            assert(es.skip(0) =~= es);
        }
        let start_offset: usize = if restart_idx > 0 && restart_idx < self.block.restart_count() {
            self.block.restart_offset(restart_idx)
        } else {
            0
        };
        (start_offset, restart_idx * RESTART_INTERVAL)
    }

    /// Decode from the nearest restart point up to entry `target_idx`.
    fn replay_key_to_index(&mut self, target_idx: usize)
        requires
            old(self).base(),
            target_idx < old(self).block.entries().len(),
        ensures
            final(self).wf(),
            final(self).block == old(self).block,
            final(self).cur() == Some(target_idx as int),
    {
        let ghost es = self.block.entries();
        let ghost region = self.block.region();
        let (start_offset, start_entry_idx) = self.restart_before(target_idx);
        let data = self.block.entry_data();
        let (pos, mut key) = replay_keys(
            data,
            start_offset,
            start_entry_idx,
            target_idx,
            Ghost(es),
        );
        let ghost s = region.skip(pos as int);
        proof {
            lemma_entry_at(region, es, target_idx as nat);
            lemma_parse_step(s, key@);
            assert(es.skip(target_idx as int)[0] == es[target_idx as int]);
        }
        let (consumed, val_off, val_len) = decode_entry_at(data, pos, &mut key);
        assert(region.subrange(val_off as int, val_off + val_len) =~= entry_value(s));
        self.cached_key = key;
        self.entry_pos = pos;
        self.next_entry_pos = pos + consumed;
        self.cached_value_offset = val_off;
        self.cached_value_len = val_len;
        self.current_entry_index = Some(target_idx);
        self.at = Ghost(target_idx as int);
        self.valid = true;
    }

    /// Go to the last entry.
    pub fn seek_to_last(&mut self)
        requires
            old(self).wf(),
        ensures
            final(self).wf(),
            final(self).run() == old(self).run(),
            final(self).cur() == last_pos(old(self).run().len()),
    {
        self.build_entry_offsets();
        match self.last_entry_index() {
            Some(last) => {
                self.replay_key_to_index(last);
            },
            None => {
                self.valid = false;
            },
        }
    }

    /// The number of the last entry, once the offsets are collected.
    fn last_entry_index(&self) -> (r: Option<usize>)
        requires
            self.base(),
            self.entry_offsets is Some,
        ensures
            match r {
                Some(i) => i == self.block.entries().len() - 1,
                None => self.block.entries().len() == 0,
            },
    {
        match &self.entry_offsets {
            Some(offsets) => {
                assert(offsets@.len() == self.block.entries().len());
                offsets.len().checked_sub(1)
            },
            None => None,
        }
    }

    /// Go to the last entry at or before `target`.
    pub fn seek_for_prev(&mut self, target: &[u8])
        requires
            old(self).wf(),
            is_internal(target@),
        ensures
            final(self).wf(),
            final(self).run() == old(self).run(),
            last_upto(old(self).run(), target@, final(self).cur()),
    {
        self.build_entry_offsets();
        let data = self.block.entry_data();
        let ghost es = self.block.entries();
        let ghost region = self.block.region();
        let mut pos: usize = 0;
        let mut temp_key: Vec<u8> = Vec::new();
        let mut count: usize = 0;
        assert(temp_key@ =~= Seq::<u8>::empty());
        proof {
            lemma_start_of(region, es, 0);
        }
        while pos < data.len()
            invariant_except_break
                temp_key@ == key_before(es, count as int),
            invariant
                data@ == region,
                parse(region, Seq::empty()) == Some(es),
                is_internal(target@),
                region.len() <= usize::MAX,
                count <= es.len(),
                count <= pos,
                pos == start_of(region, count as nat),
                count < es.len() <==> pos < region.len(),
                forall|j: int| 0 <= j < count ==> !ik_lt(target@, (#[trigger] es[j]).0),
            ensures
                count < es.len() ==> ik_lt(target@, es[count as int].0),
            decreases data@.len() - pos,
        {
            proof {
                lemma_start_of(region, es, count as nat);
                lemma_entry_at(region, es, count as nat);
                lemma_start_of(region, es, (count + 1) as nat);
            }
            let (consumed, _, _) = decode_entry_at(data, pos, &mut temp_key);
            if internal_key_lt(target, temp_key.as_slice()) {
                break;
            }
            pos = pos + consumed;
            count += 1;
        }
        proof {
            if count < es.len() {
                lemma_all_after(es, target@, count as int);
            }
        }
        if count > 0 {
            proof {
                lemma_last_upto(es, target@, count - 1);
            }
            self.replay_key_to_index(count - 1);
        } else {
            self.valid = false;
        }
    }

    /// Go to the entry before.
    pub fn advance_backward(&mut self)
        requires
            old(self).wf(),
        ensures
            final(self).wf(),
            final(self).run() == old(self).run(),
            final(self).same_block(old(self)),
            final(self).cur() == pos_before(old(self).cur()),
    {
        if !self.valid {
            return;
        }
        if self.entry_offsets.is_none() {
            self.build_entry_offsets();
        }
        let cur_idx: usize = self.current_index();
        if cur_idx == 0 {
            self.valid = false;
            return;
        }
        self.replay_key_to_index(cur_idx - 1);
    }

    /// The number of the current entry, once the offsets are collected.
    fn current_index(&self) -> (r: usize)
        requires
            self.wf(),
            self.valid,
            self.entry_offsets is Some,
        ensures
            r == self.at@,
    {
        let ghost es = self.block.entries();
        let ghost region = self.block.region();
        match self.current_entry_index {
            Some(i) => i,
            None => match &self.entry_offsets {
                Some(offsets) => {
                    proof {
                        lemma_start_of(region, es, self.at@ as nat);
                        assert(offsets@[self.at@] == self.entry_pos);
                        assert(offsets@.contains(self.entry_pos));
                        assert forall|i: int, j: int| 0 <= i < j < offsets@.len() implies (
                        #[trigger] offsets@[i]) < (#[trigger] offsets@[j]) by {
                            lemma_start_of(region, es, i as nat);
                            lemma_start_of(region, es, j as nat);
                            lemma_starts_ascend(region, es, i as nat, j as nat);
                        }
                    }
                    match find_offset(offsets, self.entry_pos) {
                        Some(k) => {
                            proof {
                                assert(offsets@[k as int] == start_of(region, k as nat) as usize);
                                lemma_start_of(region, es, k as nat);
                                if k < self.at@ {
                                    lemma_starts_ascend(region, es, k as nat, self.at@ as nat);
                                } else if k > self.at@ {
                                    lemma_starts_ascend(region, es, self.at@ as nat, k as nat);
                                }
                            }
                            k
                        },
                        None => 0,
                    }
                },
                None => 0,
            },
        }
    }

    /// The current internal key.
    pub fn key(&self) -> (r: Option<&[u8]>)
        requires
            self.wf(),
        ensures
            match self.cur() {
                Some(i) => r matches Some(k) && k@ == self.run()[i].0,
                None => r is None,
            },
    {
        if self.valid {
            Some(self.cached_key.as_slice())
        } else {
            None
        }
    }

    /// The current value, borrowed from the block.
    pub fn value(&self) -> (r: Option<&[u8]>)
        requires
            self.wf(),
        ensures
            match self.cur() {
                Some(i) => r matches Some(v) && v@ == self.run()[i].1,
                None => r is None,
            },
    {
        if !self.valid {
            return None;
        }
        let data = self.block.entry_data();
        Some(
            slice_subrange(
                data,
                self.cached_value_offset,
                self.cached_value_offset + self.cached_value_len,
            ),
        )
    }
}

/// Decode the keys of the entries from `idx` on, which starts at `start` with
/// its key written whole, up to entry `target_idx`: where that starts, and the
/// key before it.
fn replay_keys(
    data: &[u8],
    start: usize,
    idx: usize,
    target_idx: usize,
    Ghost(es): Ghost<Seq<Pair>>,
) -> (r: (usize, Vec<u8>))
    requires
        parse(data@, Seq::empty()) == Some(es),
        idx <= target_idx < es.len(),
        start == start_of(data@, idx as nat),
        parse(data@.skip(start as int), Seq::empty()) == Some(es.skip(idx as int)),
    ensures
        r.0 == start_of(data@, target_idx as nat),
        parse(data@.skip(r.0 as int), r.1@) == Some(es.skip(target_idx as int)),
{
    let len: usize = data.len();
    let mut key: Vec<u8> = Vec::new();
    let mut pos: usize = start;
    let mut i: usize = idx;
    assert(key@ =~= Seq::<u8>::empty());
    while i < target_idx
        invariant
            len == data@.len(),
            parse(data@, Seq::empty()) == Some(es),
            i <= target_idx < es.len(),
            pos == start_of(data@, i as nat),
            parse(data@.skip(pos as int), key@) == Some(es.skip(i as int)),
        decreases target_idx - i,
    {
        let ghost s = data@.skip(pos as int);
        proof {
            lemma_entry_at(data@, es, i as nat);
            lemma_parse_step(s, key@);
            assert(es.skip(i as int).skip(1) =~= es.skip(i + 1));
        }
        let (consumed, _, _) = decode_entry_at(data, pos, &mut key);
        assert(s.skip(consumed as int) =~= data@.skip(pos + consumed));
        pos = pos + consumed;
        i += 1;
    }
    (pos, key)
}

/// In a sorted run what follows an entry after the target is after it too.
proof fn lemma_all_after(es: Seq<Pair>, target: Seq<u8>, i: int)
    requires
        sorted_entries(es),
        is_internal(target),
        0 <= i < es.len(),
        ik_lt(target, es[i].0),
    ensures
        forall|j: int| i <= j < es.len() ==> ik_lt(target, (#[trigger] es[j]).0),
{
    assert forall|j: int| i <= j < es.len() implies ik_lt(target, (#[trigger] es[j]).0) by {
        if j > i {
            lemma_internal_total_order(target, es[i].0, es[j].0);
        }
    }
}

/// Where an offset stands among ascending ones. What is not there is not
/// found.
fn find_offset(offsets: &Vec<usize>, pos: usize) -> (r: Option<usize>)
    ensures
        r matches Some(i) ==> i < offsets@.len() && offsets@[i as int] == pos,
        (forall|i: int, j: int|
            0 <= i < j < offsets@.len() ==> (#[trigger] offsets@[i]) < (#[trigger] offsets@[j]))
            && r is None ==> !offsets@.contains(pos),
{
    let mut lo: usize = 0;
    let mut hi: usize = offsets.len();
    while lo < hi
        invariant
            lo <= hi <= offsets@.len(),
            (forall|i: int, j: int|
                0 <= i < j < offsets@.len() ==> (#[trigger] offsets@[i]) < (#[trigger] offsets@[j]))
                ==> (forall|i: int| 0 <= i < lo ==> (#[trigger] offsets@[i]) < pos) && (forall|i: int|
                hi <= i < offsets@.len() ==> (#[trigger] offsets@[i]) > pos),
        decreases hi - lo,
    {
        let mid: usize = lo + (hi - lo) / 2;
        if offsets[mid] == pos {
            return Some(mid);
        } else if offsets[mid] < pos {
            lo = mid + 1;
        } else {
            hi = mid;
        }
    }
    None
}

} // verus!
