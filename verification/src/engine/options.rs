//! How an engine is tuned, and when its writers have to wait.

use super::batch::SizeLimits;
use super::compaction_pick::CompactionStyle;
use super::compaction_pick::LevelOptions;
use super::compaction_pick::UniversalCompactionOptions;
use vstd::prelude::*;

verus! {

/// When writers are slowed down or stopped. A threshold of 0 is switched off.
#[derive(Debug, Clone, Copy)]
pub struct StallOptions {
    pub level0_slowdown_writes_trigger: usize,
    pub level0_stop_writes_trigger: usize,
    pub soft_pending_compaction_bytes_limit: u64,
    pub hard_pending_compaction_bytes_limit: u64,
    pub max_write_buffer_number: usize,
}

impl Default for StallOptions {
    fn default() -> (r: Self)
        ensures
            r.level0_slowdown_writes_trigger == 20,
            r.level0_stop_writes_trigger == 36,
            r.soft_pending_compaction_bytes_limit == 68_719_476_736,
            r.hard_pending_compaction_bytes_limit == 274_877_906_944,
            r.max_write_buffer_number == 2,
    {
        StallOptions {
            level0_slowdown_writes_trigger: 20,
            level0_stop_writes_trigger: 36,
            soft_pending_compaction_bytes_limit: 68_719_476_736,
            hard_pending_compaction_bytes_limit: 274_877_906_944,
            max_write_buffer_number: 2,
        }
    }
}

/// How an engine is tuned.
#[derive(Debug, Clone, Copy)]
pub struct EngineOptions {
    /// A memtable of this size is sealed before the next write.
    pub write_buffer_size: usize,
    pub read_only: bool,
    pub sizes: SizeLimits,
    pub stalls: StallOptions,
    pub compaction_style: CompactionStyle,
    pub levels: LevelOptions,
    pub universal: UniversalCompactionOptions,
    /// Under first-in-first-out compaction: how large the tables may be
    /// together.
    pub fifo_max_table_files_size: u64,
}

/// What writers are held up by.
#[derive(Debug, Clone, Copy, PartialEq, Eq, Structural)]
pub enum StallReason {
    /// Tables at level 0.
    L0Files,
    /// Memtables that wait to be flushed.
    Memtables,
    /// Bytes at level 0 that wait to be compacted.
    PendingBytes,
}

/// How writers are held up.
#[derive(Debug, Clone, Copy, PartialEq, Eq, Structural)]
pub struct Stall {
    pub reason: StallReason,
    /// Writers wait until the condition is gone; otherwise each write is
    /// delayed once.
    pub stop: bool,
}

impl Stall {
    /// The stall in words.
    pub fn describe(&self) -> (r: &'static str)
        ensures
            r@ == match (self.reason, self.stop) {
                (StallReason::L0Files, true) => "stop: too many L0 files"@,
                (StallReason::Memtables, true) => "stop: too many memtables"@,
                (StallReason::PendingBytes, true)
                    => "stop: pending compaction bytes over hard limit"@,
                (StallReason::L0Files, false) => "slowdown: L0 files over trigger"@,
                (StallReason::Memtables, false) => "slowdown: memtables over trigger"@,
                (StallReason::PendingBytes, false)
                    => "slowdown: pending compaction bytes over soft limit"@,
            },
    {
        match (self.reason, self.stop) {
            (StallReason::L0Files, true) => "stop: too many L0 files",
            (StallReason::Memtables, true) => "stop: too many memtables",
            (StallReason::PendingBytes, true) => "stop: pending compaction bytes over hard limit",
            (StallReason::L0Files, false) => "slowdown: L0 files over trigger",
            (StallReason::Memtables, false) => "slowdown: memtables over trigger",
            (StallReason::PendingBytes, false)
                => "slowdown: pending compaction bytes over soft limit",
        }
    }
}

/// A threshold is on and has been reached.
pub open spec fn reached(value: int, threshold: int) -> bool {
    threshold > 0 && value >= threshold
}

impl StallOptions {
    /// How writers are held up, if they are: by the first condition that
    /// holds, those that stop before those that slow down.
    pub open spec fn stall(self, l0: nat, memtables: nat, pending_bytes: nat) -> Option<Stall> {
        let buffers = self.max_write_buffer_number;
        let double = if 2 * buffers <= usize::MAX {
            2 * buffers
        } else {
            usize::MAX as int
        };
        if reached(l0 as int, self.level0_stop_writes_trigger as int) {
            Some(Stall { reason: StallReason::L0Files, stop: true })
        } else if reached(memtables as int, double) {
            Some(Stall { reason: StallReason::Memtables, stop: true })
        } else if reached(pending_bytes as int, self.hard_pending_compaction_bytes_limit as int) {
            Some(Stall { reason: StallReason::PendingBytes, stop: true })
        } else if reached(l0 as int, self.level0_slowdown_writes_trigger as int) {
            Some(Stall { reason: StallReason::L0Files, stop: false })
        } else if buffers > 0 && memtables > buffers {
            Some(Stall { reason: StallReason::Memtables, stop: false })
        } else if reached(pending_bytes as int, self.soft_pending_compaction_bytes_limit as int) {
            Some(Stall { reason: StallReason::PendingBytes, stop: false })
        } else {
            None
        }
    }

    /// How writers are held up, if they are.
    pub fn stall_state(&self, l0: usize, memtables: usize, pending_bytes: u64) -> (r: Option<Stall>)
        ensures
            r == self.stall(l0 as nat, memtables as nat, pending_bytes as nat),
    {
        if self.level0_stop_writes_trigger > 0 && l0 >= self.level0_stop_writes_trigger {
            return Some(Stall { reason: StallReason::L0Files, stop: true });
        }
        if self.max_write_buffer_number > 0 {
            let double: usize = match self.max_write_buffer_number.checked_mul(2) {
                Some(n) => n,
                None => usize::MAX,
            };
            if memtables >= double {
                return Some(Stall { reason: StallReason::Memtables, stop: true });
            }
        }
        if self.hard_pending_compaction_bytes_limit > 0 && pending_bytes
            >= self.hard_pending_compaction_bytes_limit {
            return Some(Stall { reason: StallReason::PendingBytes, stop: true });
        }
        if self.level0_slowdown_writes_trigger > 0 && l0 >= self.level0_slowdown_writes_trigger {
            return Some(Stall { reason: StallReason::L0Files, stop: false });
        }
        if self.max_write_buffer_number > 0 && memtables > self.max_write_buffer_number {
            return Some(Stall { reason: StallReason::Memtables, stop: false });
        }
        if self.soft_pending_compaction_bytes_limit > 0 && pending_bytes
            >= self.soft_pending_compaction_bytes_limit {
            return Some(Stall { reason: StallReason::PendingBytes, stop: false });
        }
        None
    }
}

/// The level of a stall: 0 for none, 1 for a slowdown, 2 for a stop.
pub fn stall_level(stall: Option<Stall>) -> (r: u8)
    ensures
        r == match stall {
            None => 0u8,
            Some(s) => if s.stop {
                2u8
            } else {
                1u8
            },
        },
{
    match stall {
        None => 0,
        Some(s) => if s.stop {
            2
        } else {
            1
        },
    }
}

/// What a writer does next.
#[derive(Debug, Clone, Copy, PartialEq, Eq, Structural)]
pub enum WriteGate {
    /// Write.
    Proceed,
    /// Write, and remember that nothing holds writers up any more.
    ProceedCleared,
    /// Fail: the engine is closed.
    Closed,
    /// Fail: the writer does not want to wait.
    Busy(Stall),
    /// Wait until something changes, or for at most
    /// [`STOP_WAIT_MILLIS`], and ask again.
    Wait,
    /// Sleep for [`SLOWDOWN_DELAY_MILLIS`], then write.
    Delay,
}

/// The longest wait of a stopped writer before it looks again, so that a
/// notification that was missed holds nobody up for ever.
pub const STOP_WAIT_MILLIS: u64 = 100;

/// The delay of a write during a slowdown.
pub const SLOWDOWN_DELAY_MILLIS: u64 = 1;

/// What a writer does next. `cached_level` is what is remembered of the last
/// stall; where that is 0, the state itself is not asked for.
pub open spec fn gate(closed: bool, cached_level: u8, stall: Option<Stall>, no_slowdown: bool) ->
    WriteGate {
    if closed {
        WriteGate::Closed
    } else if cached_level == 0 {
        WriteGate::Proceed
    } else {
        match stall {
            None => WriteGate::ProceedCleared,
            Some(s) => if no_slowdown {
                WriteGate::Busy(s)
            } else if s.stop {
                WriteGate::Wait
            } else {
                WriteGate::Delay
            },
        }
    }
}

/// What a writer does next.
pub fn write_gate(
    closed: bool,
    cached_level: u8,
    stall: Option<Stall>,
    no_slowdown: bool,
) -> (r: WriteGate)
    ensures
        r == gate(closed, cached_level, stall, no_slowdown),
{
    if closed {
        return WriteGate::Closed;
    }
    if cached_level == 0 {
        return WriteGate::Proceed;
    }
    match stall {
        None => WriteGate::ProceedCleared,
        Some(s) => if no_slowdown {
            WriteGate::Busy(s)
        } else if s.stop {
            WriteGate::Wait
        } else {
            WriteGate::Delay
        },
    }
}

/// A writer that does not want to wait never does.
pub proof fn lemma_no_slowdown_never_waits(closed: bool, cached_level: u8, stall: Option<Stall>)
    ensures
        !(gate(closed, cached_level, stall, true) is Wait),
        !(gate(closed, cached_level, stall, true) is Delay),
{
}

/// One of the limits at which writers stop is reached: so many tables at level
/// 0, twice the memtables that there may be, or so many bytes to compact. A
/// limit of 0 is none.
pub open spec fn must_stop(o: StallOptions, l0: int, memtables: int, bytes: int) -> bool {
    ||| o.level0_stop_writes_trigger != 0 && o.level0_stop_writes_trigger <= l0
    ||| o.max_write_buffer_number != 0 && (2 * o.max_write_buffer_number <= memtables || usize::MAX
        <= memtables)
    ||| o.hard_pending_compaction_bytes_limit != 0 && o.hard_pending_compaction_bytes_limit <= bytes
}

/// One of the limits at which writers slow down is reached: so many tables at
/// level 0, more memtables than there may be, or so many bytes to compact.
pub open spec fn must_slow(o: StallOptions, l0: int, memtables: int, bytes: int) -> bool {
    ||| o.level0_slowdown_writes_trigger != 0 && o.level0_slowdown_writes_trigger <= l0
    ||| o.max_write_buffer_number != 0 && o.max_write_buffer_number < memtables
    ||| o.soft_pending_compaction_bytes_limit != 0 && o.soft_pending_compaction_bytes_limit <= bytes
}

/// Writers stop exactly where a limit for that is reached, and slow down
/// exactly where only a lower one is. What they are told holds them up is
/// something that has reached its limit.
pub proof fn lemma_stalls_at_the_limits(o: StallOptions, l0: nat, memtables: nat, bytes: nat)
    ensures
        ({
            let s = o.stall(l0, memtables, bytes);
            let (l, m, b) = (l0 as int, memtables as int, bytes as int);
            &&& s is None <==> !must_stop(o, l, m, b) && !must_slow(o, l, m, b)
            &&& s is Some && s->0.stop <==> must_stop(o, l, m, b)
            &&& s matches Some(stall) ==> {
                let only = match stall.reason {
                    StallReason::L0Files => (l, 0, 0),
                    StallReason::Memtables => (0, m, 0),
                    StallReason::PendingBytes => (0, 0, b),
                };
                if stall.stop {
                    must_stop(o, only.0, only.1, only.2)
                } else {
                    must_slow(o, only.0, only.1, only.2)
                }
            }
        }),
{
}

/// More of what writers wait for never lets them go: a stop stays one, and
/// where they were held up they still are.
pub proof fn lemma_stalls_grow(
    o: StallOptions,
    l0: nat,
    memtables: nat,
    bytes: nat,
    more_l0: nat,
    more_memtables: nat,
    more_bytes: nat,
)
    requires
        l0 <= more_l0,
        memtables <= more_memtables,
        bytes <= more_bytes,
    ensures
        o.stall(l0, memtables, bytes) is Some ==> o.stall(
            more_l0,
            more_memtables,
            more_bytes,
        ) is Some,
        o.stall(l0, memtables, bytes) matches Some(s) && s.stop ==> o.stall(
            more_l0,
            more_memtables,
            more_bytes,
        )->0.stop,
{
    lemma_stalls_at_the_limits(o, l0, memtables, bytes);
    lemma_stalls_at_the_limits(o, more_l0, more_memtables, more_bytes);
}

/// A writer of a closed engine fails, and of an open one only because it does
/// not want to wait for what holds it up. Where nothing holds writers up it
/// writes at once. A stop keeps it waiting, a slowdown delays it once.
pub proof fn lemma_gate_holds_writers_up(
    closed: bool,
    cached_level: u8,
    stall: Option<Stall>,
    no_slowdown: bool,
)
    ensures
        ({
            let g = gate(closed, cached_level, stall, no_slowdown);
            let held_up = !closed && cached_level != 0 && stall is Some;
            &&& g is Closed <==> closed
            &&& g is Busy <==> held_up && no_slowdown
            &&& g matches WriteGate::Busy(s) ==> stall == Some(s)
            &&& g is Wait <==> held_up && !no_slowdown && stall->0.stop
            &&& g is Delay <==> held_up && !no_slowdown && !stall->0.stop
            &&& g is ProceedCleared <==> !closed && cached_level != 0 && stall is None
            &&& g is Proceed <==> !closed && cached_level == 0
        }),
{
}

} // verus!
