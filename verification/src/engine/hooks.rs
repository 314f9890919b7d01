//! What users plug into the engine: merge operators and compaction filters.
//!
//! Nothing is known of what an implementation returns. Each trait has spec
//! functions for what a call may return, in which contracts say which call's
//! result they speak of; an implementation that says nothing may return
//! anything.

use vstd::prelude::*;

verus! {

/// What an optional byte string says.
pub open spec fn opt_bytes(v: Option<Vec<u8>>) -> Option<Seq<u8>> {
    match v {
        Some(b) => Some(b@),
        None => None,
    }
}

/// What an optional borrowed byte string says.
pub open spec fn opt_slice(v: Option<&[u8]>) -> Option<Seq<u8>> {
    match v {
        Some(b) => Some(b@),
        None => None,
    }
}

/// What a list of byte strings says.
pub open spec fn byte_strings(v: Seq<Vec<u8>>) -> Seq<Seq<u8>> {
    v.map_values(|b: Vec<u8>| b@)
}

/// Combines merge operands with an older value, or with each other.
pub trait MergeOperator {
    /// `full_merge` may return `result`.
    open spec fn full_may(
        &self,
        key: Seq<u8>,
        base: Option<Seq<u8>>,
        operands: Seq<Seq<u8>>,
        result: Option<Seq<u8>>,
    ) -> bool {
        true
    }

    /// `partial_merge` may return `result`.
    open spec fn partial_may(
        &self,
        key: Seq<u8>,
        left: Seq<u8>,
        right: Seq<u8>,
        result: Option<Seq<u8>>,
    ) -> bool {
        true
    }

    /// The value of `key` that the operands, oldest first, make of the base
    /// value (`None`: there is none). `None` where they cannot be combined.
    fn full_merge(&self, key: &[u8], base: Option<&[u8]>, operands: &Vec<Vec<u8>>) -> (r: Option<
        Vec<u8>,
    >)
        ensures
            self.full_may(key@, opt_slice(base), byte_strings(operands@), opt_bytes(r)),
    ;

    /// One operand with the effect of `left` followed by `right`. `None`
    /// where there is none.
    fn partial_merge(&self, key: &[u8], left: &[u8], right: &[u8]) -> (r: Option<Vec<u8>>)
        ensures
            self.partial_may(key@, left@, right@, opt_bytes(r)),
    ;
}

/// What a compaction filter wants done with an entry.
pub enum CompactionDecision {
    Keep,
    Change(Vec<u8>),
    Remove,
}

/// What a decision says.
pub enum DecisionView {
    Keep,
    Change(Seq<u8>),
    Remove,
}

impl View for CompactionDecision {
    type V = DecisionView;

    open spec fn view(&self) -> DecisionView {
        match self {
            CompactionDecision::Keep => DecisionView::Keep,
            CompactionDecision::Change(v) => DecisionView::Change(v@),
            CompactionDecision::Remove => DecisionView::Remove,
        }
    }
}

/// Decides at compaction what becomes of live values and range tombstones.
pub trait CompactionFilter {
    /// `filter` may return `decision`.
    open spec fn filter_may(
        &self,
        level: nat,
        key: Seq<u8>,
        value: Seq<u8>,
        decision: DecisionView,
    ) -> bool {
        true
    }

    /// `filter_range_delete` may return `decision`.
    open spec fn filter_range_may(
        &self,
        level: nat,
        start: Seq<u8>,
        end: Seq<u8>,
        decision: DecisionView,
    ) -> bool {
        true
    }

    /// What becomes of the value of `key` on its way to `level`.
    fn filter(&self, level: usize, key: &[u8], value: &[u8]) -> (d: CompactionDecision)
        ensures
            self.filter_may(level as nat, key@, value@, d@),
    ;

    /// What becomes of the tombstone of `[start, end)` on its way to `level`.
    fn filter_range_delete(&self, level: usize, start: &[u8], end: &[u8]) -> (d: CompactionDecision)
        ensures
            self.filter_range_may(level as nat, start@, end@, d@),
    ;
}

/// A merge operator that combines nothing.
pub struct NoMergeOperator;

impl MergeOperator for NoMergeOperator {
    open spec fn full_may(
        &self,
        key: Seq<u8>,
        base: Option<Seq<u8>>,
        operands: Seq<Seq<u8>>,
        result: Option<Seq<u8>>,
    ) -> bool {
        result is None
    }

    open spec fn partial_may(
        &self,
        key: Seq<u8>,
        left: Seq<u8>,
        right: Seq<u8>,
        result: Option<Seq<u8>>,
    ) -> bool {
        result is None
    }

    fn full_merge(&self, key: &[u8], base: Option<&[u8]>, operands: &Vec<Vec<u8>>) -> (r: Option<
        Vec<u8>,
    >) {
        None
    }

    fn partial_merge(&self, key: &[u8], left: &[u8], right: &[u8]) -> (r: Option<Vec<u8>>) {
        None
    }
}

/// A compaction filter that keeps everything.
pub struct KeepAll;

impl CompactionFilter for KeepAll {
    open spec fn filter_may(
        &self,
        level: nat,
        key: Seq<u8>,
        value: Seq<u8>,
        decision: DecisionView,
    ) -> bool {
        decision is Keep
    }

    open spec fn filter_range_may(
        &self,
        level: nat,
        start: Seq<u8>,
        end: Seq<u8>,
        decision: DecisionView,
    ) -> bool {
        decision is Keep
    }

    fn filter(&self, level: usize, key: &[u8], value: &[u8]) -> (d: CompactionDecision) {
        CompactionDecision::Keep
    }

    fn filter_range_delete(&self, level: usize, start: &[u8], end: &[u8]) -> (d:
        CompactionDecision) {
        CompactionDecision::Keep
    }
}

} // verus!
