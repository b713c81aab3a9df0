//! Cohort-retention aggregation core.
//!
//! The state is an OR-fold of per-row condition bitmasks.  `finalize` applies
//! the anchor rule: entry `0` reports whether condition `0` ever held, and
//! entry `i > 0` reports whether condition `0` and condition `i` both held on
//! some (not necessarily the same) row.  Without the anchor every entry is
//! false: a user who never appeared in the cohort cannot be retained.

use vstd::prelude::*;
use crate::event::{cond_bit, lemma_cond_bit_or, lemma_cond_bit_zero};

verus! {

/// Maximum number of conditions the retention bitmask can track.
pub const MAX_CONDITIONS: usize = 32;

/// State of one group's retention aggregation.
#[derive(Debug, Clone, Copy, PartialEq, Eq, Structural)]
pub struct RetentionState {
    /// Bit `i` is set when condition `i` held on at least one row.
    pub conditions_met: u32,
    /// Number of condition columns, recorded on update.
    pub num_conditions: usize,
}

/// What `combine` computes: the OR of the bitmasks and the larger width.
pub open spec fn spec_retention_combine(a: RetentionState, b: RetentionState) -> RetentionState {
    RetentionState {
        conditions_met: a.conditions_met | b.conditions_met,
        num_conditions: if a.num_conditions >= b.num_conditions {
            a.num_conditions
        } else {
            b.num_conditions
        },
    }
}

/// The finalize value at index `i`: false without the anchor, true at the
/// anchor itself, and bit `i` elsewhere (so always false from index 32 on).
pub open spec fn spec_retention_flag(mask: u32, i: int) -> bool {
    if !cond_bit(mask, 0) {
        false
    } else if i == 0 {
        true
    } else {
        cond_bit(mask, i)
    }
}

impl RetentionState {
    /// Creates the empty state: no condition met, no columns seen.
    pub fn new() -> (r: RetentionState)
        ensures
            r == (RetentionState { conditions_met: 0u32, num_conditions: 0usize }),
    {
        RetentionState { conditions_met: 0, num_conditions: 0 }
    }

    /// Records one row: each true condition below index 32 sets its bit, and
    /// the condition count is taken from the row's width.
    pub fn update(&mut self, conditions: &[bool])
        ensures
            final(self).num_conditions == conditions@.len(),
            forall|i: int|
                0 <= i < 32 ==> (cond_bit(final(self).conditions_met, i) <==> (cond_bit(
                    old(self).conditions_met,
                    i,
                ) || (i < conditions@.len() && conditions@[i]))),
    {
        self.num_conditions = conditions.len();
        let row_mask = crate::event::pack_conditions(conditions);
        let ghost prior = self.conditions_met;
        self.conditions_met = self.conditions_met | row_mask;
        proof {
            assert forall|i: int|
                0 <= i < 32 implies (cond_bit(self.conditions_met, i) <==> (cond_bit(prior, i) || (
            i < conditions@.len() && conditions@[i]))) by {
                lemma_cond_bit_or(prior, row_mask, i);
            }
        }
    }

    /// Combines two partial states by OR-ing the bitmasks and keeping the
    /// larger condition count.
    pub fn combine(&self, other: &RetentionState) -> (r: RetentionState)
        ensures
            r == spec_retention_combine(*self, *other),
    {
        RetentionState {
            conditions_met: self.conditions_met | other.conditions_met,
            num_conditions: if self.num_conditions >= other.num_conditions {
                self.num_conditions
            } else {
                other.num_conditions
            },
        }
    }

    /// Produces the retention vector: one flag per condition column, each
    /// fixed by `spec_retention_flag` over the accumulated bitmask.
    pub fn finalize(&self) -> (r: Vec<bool>)
        ensures
            r@.len() == self.num_conditions,
            forall|i: int| 0 <= i < r@.len() ==> r@[i] == spec_retention_flag(self.conditions_met, i),
    {
        let anchor_met = self.condition_met_at(0);
        let mut r: Vec<bool> = Vec::new();
        let mut i: usize = 0;
        while i < self.num_conditions
            invariant
                i <= self.num_conditions,
                anchor_met == cond_bit(self.conditions_met, 0),
                r@.len() == i,
                forall|k: int|
                    0 <= k < i ==> r@[k] == spec_retention_flag(self.conditions_met, k),
            decreases self.num_conditions - i,
        {
            let flag = if !anchor_met {
                false
            } else if i == 0 {
                true
            } else {
                self.condition_met_at(i)
            };
            r.push(flag);
            i += 1;
        }
        r
    }

    /// True when bit `idx` of the accumulated mask is set.
    fn condition_met_at(&self, idx: usize) -> (r: bool)
        ensures
            r == cond_bit(self.conditions_met, idx as int),
    {
        crate::event::mask_bit(self.conditions_met, idx)
    }
}

impl Default for RetentionState {
    /// The default state is the empty state.
    fn default() -> (r: RetentionState)
        ensures
            r == (RetentionState { conditions_met: 0u32, num_conditions: 0usize }),
    {
        RetentionState { conditions_met: 0, num_conditions: 0 }
    }
}

/// Law: retention `combine` is commutative.
pub proof fn lemma_retention_combine_commutative(a: RetentionState, b: RetentionState)
    ensures
        spec_retention_combine(a, b) == spec_retention_combine(b, a),
{
    let x = a.conditions_met;
    let y = b.conditions_met;
    assert(x | y == y | x) by (bit_vector);
}

/// Law: retention `combine` is associative.
pub proof fn lemma_retention_combine_associative(
    a: RetentionState,
    b: RetentionState,
    c: RetentionState,
)
    ensures
        spec_retention_combine(spec_retention_combine(a, b), c) == spec_retention_combine(
            a,
            spec_retention_combine(b, c),
        ),
{
    let x = a.conditions_met;
    let y = b.conditions_met;
    let z = c.conditions_met;
    assert((x | y) | z == x | (y | z)) by (bit_vector);
}

/// Law: retention `combine` is idempotent.
pub proof fn lemma_retention_combine_idempotent(a: RetentionState)
    ensures
        spec_retention_combine(a, a) == a,
{
    let x = a.conditions_met;
    assert(x | x == x) by (bit_vector);
}

/// Law: the empty state is a two-sided identity for retention `combine`.
pub proof fn lemma_retention_combine_identity(a: RetentionState)
    ensures
        spec_retention_combine(RetentionState { conditions_met: 0u32, num_conditions: 0usize }, a)
            == a,
        spec_retention_combine(a, RetentionState { conditions_met: 0u32, num_conditions: 0usize })
            == a,
{
    let x = a.conditions_met;
    assert(0u32 | x == x) by (bit_vector);
    assert(x | 0u32 == x) by (bit_vector);
}

} // verus!
