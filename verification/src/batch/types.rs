use vstd::prelude::*;

use crate::eval_context::EvalContext;
use crate::rule_engine::{
    lemma_rule_slot_bijection, rule_at, rule_index, rule_of_slot, rule_slot, RuleId, RuleResult,
};
use crate::scenario::incremental::RuleSet;
use crate::types::Husstandstype;

verus! {

/// `row` records, at each rule's slot, the rule's result in `m`, or `zero`
/// and not eligible when `m` has none.
pub open spec fn row_holds<A>(row: CompactBorgerResult<A>, m: Map<RuleId, RuleResult<A>>, zero: A) -> bool {
    forall|id: RuleId|
        #![trigger row.amounts@[rule_slot(id)]]
        #![trigger row.eligible@[rule_slot(id)]]
        if m.contains_key(id) {
            row.amounts@[rule_slot(id)] == m[id].amount && row.eligible@[rule_slot(id)] == m[id].eligible
        } else {
            row.amounts@[rule_slot(id)] == zero && !row.eligible@[rule_slot(id)]
        }
}

/// The result that a row records for a rule.
pub open spec fn recorded_result<A>(row: CompactBorgerResult<A>, id: RuleId) -> RuleResult<A> {
    RuleResult { rule_id: id, amount: row.amounts@[rule_slot(id)], eligible: row.eligible@[rule_slot(id)] }
}

/// A row made from a context reads back the result of each rule the context
/// holds, when that result is labelled with its rule.
pub proof fn lemma_row_reads_back<A>(row: CompactBorgerResult<A>, m: Map<RuleId, RuleResult<A>>, zero: A, id: RuleId)
    requires
        row_holds(row, m, zero),
        m.contains_key(id),
        m[id].rule_id == id,
    ensures
        recorded_result(row, id) == m[id],
{
    assert(row.amounts@[rule_slot(id)] == m[id].amount);
}

/// Recording a result in a row and reading its rule back gives the result;
/// the other rules read as before.
pub proof fn lemma_set_then_read<A>(
    before: CompactBorgerResult<A>,
    after: CompactBorgerResult<A>,
    r: RuleResult<A>,
    id: RuleId,
)
    requires
        after.amounts@ == before.amounts@.update(rule_slot(r.rule_id), r.amount),
        after.eligible@ == before.eligible@.update(rule_slot(r.rule_id), r.eligible),
    ensures
        recorded_result(after, r.rule_id) == r,
        id != r.rule_id ==> recorded_result(after, id) == recorded_result(before, id),
{
    lemma_rule_slot_bijection();
    assert(before.amounts@.len() == 3);
    if id != r.rule_id {
        assert(rule_slot(id) != rule_slot(r.rule_id)) by {
            if rule_slot(id) == rule_slot(r.rule_id) {
                assert(rule_of_slot(rule_slot(id)) == rule_of_slot(rule_slot(r.rule_id)));
            }
        }
    }
}

/// `row` is `base` with the rules of `dirty` that have a result in `fresh`
/// replaced by that result.
pub open spec fn merged_row<A>(
    base: CompactBorgerResult<A>,
    fresh: Map<RuleId, RuleResult<A>>,
    dirty: Set<RuleId>,
    row: CompactBorgerResult<A>,
) -> bool {
    forall|id: RuleId|
        #![trigger row.amounts@[rule_slot(id)]]
        #![trigger row.eligible@[rule_slot(id)]]
        if dirty.contains(id) && fresh.contains_key(id) {
            row.amounts@[rule_slot(id)] == fresh[id].amount && row.eligible@[rule_slot(id)] == fresh[id].eligible
        } else {
            row.amounts@[rule_slot(id)] == base.amounts@[rule_slot(id)] && row.eligible@[rule_slot(id)]
                == base.eligible@[rule_slot(id)]
        }
}

/// Compact per-citizen result: one amount and one eligibility flag per rule,
/// stored at the rule's slot. `A` is the amount type.
#[derive(Debug, Clone, Copy)]
pub struct CompactBorgerResult<A> {
    pub amounts: [A; 3],
    pub eligible: [bool; 3],
}

impl<A: Copy> CompactBorgerResult<A> {
    pub fn amount(&self, rule_id: RuleId) -> (a: A)
        ensures
            a == self.amounts@[rule_slot(rule_id)],
    {
        self.amounts[rule_index(rule_id)]
    }

    pub fn is_eligible(&self, rule_id: RuleId) -> (b: bool)
        ensures
            b == self.eligible@[rule_slot(rule_id)],
    {
        self.eligible[rule_index(rule_id)]
    }

    /// The result that this row records for a rule.
    pub fn rule_result(&self, rule_id: RuleId) -> (r: RuleResult<A>)
        ensures
            r == recorded_result(*self, rule_id),
    {
        let k = rule_index(rule_id);
        RuleResult { rule_id, amount: self.amounts[k], eligible: self.eligible[k] }
    }

    /// The row of a fully evaluated context: each rule's amount and flag, or
    /// `zero` and not eligible for a rule without a result.
    pub fn from_context(ctx: &EvalContext<A>, zero: A) -> (row: Self)
        ensures
            row_holds(row, ctx@, zero),
    {
        proof {
            lemma_rule_slot_bijection();
        }
        let mut row = CompactBorgerResult { amounts: [zero, zero, zero], eligible: [false, false, false] };
        let mut k: usize = 0;
        while k < 3
            invariant
                0 <= k <= 3,
                forall|id: RuleId|
                    #![trigger row.amounts@[rule_slot(id)]]
                    #![trigger row.eligible@[rule_slot(id)]]
                    rule_slot(id) < k ==> if ctx@.contains_key(id) {
                        row.amounts@[rule_slot(id)] == ctx@[id].amount && row.eligible@[rule_slot(
                            id,
                        )] == ctx@[id].eligible
                    } else {
                        row.amounts@[rule_slot(id)] == zero && !row.eligible@[rule_slot(id)]
                    },
                forall|id: RuleId|
                    #![trigger row.amounts@[rule_slot(id)]]
                    #![trigger row.eligible@[rule_slot(id)]]
                    rule_slot(id) >= k ==> row.amounts@[rule_slot(id)] == zero && !row.eligible@[rule_slot(id)],
            decreases 3 - k,
        {
            proof {
                lemma_rule_slot_bijection();
            }
            let id = rule_at(k);
            match ctx.get(&id) {
                Some(r) => {
                    row.amounts[k] = r.amount;
                    row.eligible[k] = r.eligible;
                },
                None => {},
            }
            k += 1;
        }
        row
    }

    /// Records a result at its rule's slot, leaving the other rules as they were.
    pub fn set_result(&mut self, result: RuleResult<A>)
        ensures
            final(self).amounts@ == old(self).amounts@.update(rule_slot(result.rule_id), result.amount),
            final(self).eligible@ == old(self).eligible@.update(
                rule_slot(result.rule_id),
                result.eligible,
            ),
    {
        let k = rule_index(result.rule_id);
        self.amounts[k] = result.amount;
        self.eligible[k] = result.eligible;
    }

    /// A baseline row with the rules in `dirty` replaced by their fresh results:
    /// rules outside `dirty` (or without a fresh result) keep their baseline
    /// amount and flag.
    pub fn merge_reevaluated(&self, fresh: &EvalContext<A>, dirty: &RuleSet) -> (row: Self)
        ensures
            merged_row(*self, fresh@, dirty@, row),
    {
        proof {
            lemma_rule_slot_bijection();
        }
        let mut row = *self;
        let mut k: usize = 0;
        while k < 3
            invariant
                0 <= k <= 3,
                forall|id: RuleId|
                    #![trigger row.amounts@[rule_slot(id)]]
                    #![trigger row.eligible@[rule_slot(id)]]
                    if rule_slot(id) < k && dirty@.contains(id) && fresh@.contains_key(id) {
                        row.amounts@[rule_slot(id)] == fresh@[id].amount && row.eligible@[rule_slot(
                            id,
                        )] == fresh@[id].eligible
                    } else {
                        row.amounts@[rule_slot(id)] == self.amounts@[rule_slot(id)]
                            && row.eligible@[rule_slot(id)] == self.eligible@[rule_slot(id)]
                    },
            decreases 3 - k,
        {
            let id = rule_at(k);
            if dirty.contains(&id) {
                match fresh.get(&id) {
                    Some(r) => {
                        row.amounts[k] = r.amount;
                        row.eligible[k] = r.eligible;
                    },
                    None => {},
                }
            }
            k += 1;
        }
        row
    }
}

/// Totals of one rule over a batch.
#[derive(Debug, Clone, Copy)]
pub struct RuleAggregation<A> {
    pub rule_id: RuleId,
    pub total_amount: A,
    pub eligible_count: usize,
    pub mean_amount: A,
}

/// All citizens' results, with per-rule totals.
#[derive(Debug)]
pub struct BatchResult<A> {
    pub per_rule: Vec<RuleAggregation<A>>,
    pub borger_results: Vec<CompactBorgerResult<A>>,
    pub count: usize,
}

impl<A> BatchResult<A> {
    /// One result row per citizen.
    pub open spec fn wf(&self) -> bool {
        self.borger_results@.len() == self.count
    }
}

/// Key for group-by aggregation.
#[derive(Debug, Clone, Copy, PartialEq, Eq, Hash, Structural)]
pub enum SegmentKey {
    Kommune(u8),
    Husstandstype(Husstandstype),
}

/// Totals of one rule over one segment.
#[derive(Debug, Clone)]
pub struct SegmentAggregation<A> {
    pub key: SegmentKey,
    pub rule_id: RuleId,
    pub total_amount: A,
    pub eligible_count: usize,
    pub borger_count: usize,
}

/// A ranked citizen: row, id, and the amount it was ranked by.
#[derive(Debug, Clone, Copy)]
pub struct TopNEntry<A> {
    pub borger_index: usize,
    pub borger_id: u32,
    pub rule_id: RuleId,
    pub amount: A,
}

} // verus!
