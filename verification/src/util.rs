//! The identifiers that the labels of loops are made of.

use crate::text::{decimal, decimal_text, lemma_decimal_injective};
use std::sync::atomic::{AtomicUsize, Ordering};
use vstd::prelude::*;

verus! {

/// The number that a label carries when `count` identifiers have been
/// handed out since the counter stood at zero: the counter wraps around at
/// the width of `usize`.
pub open spec fn label_number(count: int) -> usize {
    (count % (usize::MAX as int + 1)) as usize
}

/// The source of the unique identifiers that branch labels are made of: a
/// counter that only moves forward, by atomic fetch-and-add, so that it can
/// be shared among threads without a lock and no two callers are ever
/// handed the same value.
pub struct LabelAllocator {
    counter: AtomicUsize,
}

/// The text of an identifier: its number in decimal.
pub fn id_text(number: usize) -> (id: String)
    ensures
        id@ == decimal(number as nat),
{
    decimal_text(number as u64)
}

impl LabelAllocator {
    /// An allocator whose first identifier is `0`.
    pub fn new() -> (fresh: Self) {
        LabelAllocator { counter: AtomicUsize::new(0) }
    }

    /// Takes `count` consecutive identifiers in one step and returns the
    /// number of the first. Which number that is depends on what every
    /// holder of the allocator has taken before.
    pub(crate) fn reserve(&self, count: usize) -> (first: usize) {
        self.counter.fetch_add(count, Ordering::Relaxed)
    }

    /// Hands out the next identifier, as decimal text.
    pub fn next_id(&self) -> (id: String)
        ensures
            exists|number: usize| id@ == decimal(number as nat),
    {
        id_text(self.reserve(1))
    }
}

/// Moving on from the `count`-th number gives the number after it.
pub proof fn lemma_label_number_step(count: int)
    ensures
        label_number(label_number(count) + 1) == label_number(count + 1),
{
    let turn = usize::MAX as int + 1;
    assert((count % turn + 1) % turn == (count + 1) % turn) by (nonlinear_arith)
        requires
            turn > 0,
    ;
}

/// Identifiers do not repeat before the counter has gone once around: two
/// different counts less than a full turn apart give different texts.
pub proof fn lemma_ids_distinct(a: int, b: int)
    requires
        a != b,
        -(usize::MAX as int) <= a - b <= usize::MAX as int,
    ensures
        decimal(label_number(a) as nat) != decimal(label_number(b) as nat),
{
    let turn = usize::MAX as int + 1;
    assert(a % turn != b % turn) by (nonlinear_arith)
        requires
            a != b,
            -turn < a - b < turn,
            turn > 0,
    ;
    if decimal(label_number(a) as nat) == decimal(label_number(b) as nat) {
        lemma_decimal_injective(label_number(a) as nat, label_number(b) as nat);
    }
}

} // verus!
