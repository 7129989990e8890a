use vstd::prelude::*;

use crate::rule_engine::{
    lemma_rule_slot_bijection, rule_at, rule_index, rule_slot, RuleId, RuleResult,
};

verus! {

/// Results of the rules evaluated so far for one citizen, so that a rule can
/// read the results of the rules it depends on. `A` is the amount type.
#[derive(Debug)]
pub struct EvalContext<A> {
    slots: [Option<RuleResult<A>>; 3],
}

/// The stored result at a slot, if it is a result of the rule of that slot.
pub open spec fn slot_holds<A>(slot: Option<RuleResult<A>>, id: RuleId) -> bool {
    slot matches Some(r) && r.rule_id == id
}

impl<A> View for EvalContext<A> {
    type V = Map<RuleId, RuleResult<A>>;

    closed spec fn view(&self) -> Map<RuleId, RuleResult<A>> {
        Map::new(
            |id: RuleId| slot_holds(self.slots@[rule_slot(id)], id),
            |id: RuleId| self.slots@[rule_slot(id)]->Some_0,
        )
    }
}

impl<A> EvalContext<A> {
    /// An empty context.
    pub fn new() -> (ctx: Self)
        ensures
            ctx@ == Map::<RuleId, RuleResult<A>>::empty(),
    {
        let ctx = EvalContext { slots: [None, None, None] };
        assert(ctx@ =~= Map::<RuleId, RuleResult<A>>::empty());
        ctx
    }

    /// Records a result; a later `get` of its rule returns it.
    pub fn insert(&mut self, result: RuleResult<A>)
        ensures
            final(self)@ == old(self)@.insert(result.rule_id, result),
    {
        proof {
            lemma_rule_slot_bijection();
        }
        let k = rule_index(result.rule_id);
        let ghost id = result.rule_id;
        let ghost r = result;
        self.slots[k] = Some(result);
        assert(self@ =~= old(self)@.insert(id, r));
    }

    /// The result recorded for a rule, if any.
    pub fn get(&self, rule_id: &RuleId) -> (r: Option<&RuleResult<A>>)
        ensures
            r matches Some(x) ==> self@.contains_key(*rule_id) && self@[*rule_id] == *x,
            r is None ==> !self@.contains_key(*rule_id),
    {
        let k = rule_index(*rule_id);
        match &self.slots[k] {
            Some(res) => {
                if res.rule_id == *rule_id {
                    Some(res)
                } else {
                    None
                }
            },
            None => None,
        }
    }

    /// Forgets all recorded results.
    pub fn clear(&mut self)
        ensures
            final(self)@ == Map::<RuleId, RuleResult<A>>::empty(),
    {
        self.slots = [None, None, None];
        assert(self@ =~= Map::<RuleId, RuleResult<A>>::empty());
    }
}

impl<A: Copy> EvalContext<A> {
    /// All recorded results, one per rule, in slot order.
    pub fn results(&self) -> (res: Vec<RuleResult<A>>)
        ensures
            res@.len() == self@.dom().len(),
            forall|i: int|
                0 <= i < res@.len() ==> self@.contains_key(#[trigger] res@[i].rule_id) && self@[res@[i].rule_id]
                    == res@[i],
            forall|i: int, j: int| 0 <= i < j < res@.len() ==> rule_slot(res@[i].rule_id) < rule_slot(res@[j].rule_id),
            forall|id: RuleId| self@.contains_key(id) ==> exists|i: int| 0 <= i < res@.len() && (#[trigger] res@[i]).rule_id == id,
    {
        proof {
            lemma_rule_slot_bijection();
        }
        let mut res: Vec<RuleResult<A>> = Vec::new();
        let mut k: usize = 0;
        let ghost mut seen: Set<RuleId> = Set::empty();
        while k < 3
            invariant
                0 <= k <= 3,
                seen.finite(),
                res@.len() == seen.len(),
                forall|id: RuleId| #[trigger] seen.contains(id) <==> (rule_slot(id) < k && self@.contains_key(id)),
                forall|i: int|
                    0 <= i < res@.len() ==> seen.contains(#[trigger] res@[i].rule_id) && self@[res@[i].rule_id]
                        == res@[i],
                forall|i: int, j: int| 0 <= i < j < res@.len() ==> rule_slot(res@[i].rule_id) < rule_slot(res@[j].rule_id),
                forall|i: int| 0 <= i < res@.len() ==> rule_slot(#[trigger] res@[i].rule_id) < k,
                forall|id: RuleId| seen.contains(id) ==> exists|i: int| 0 <= i < res@.len() && (#[trigger] res@[i]).rule_id == id,
            decreases 3 - k,
        {
            let id = rule_at(k);
            let ghost old_res = res@;
            let ghost old_seen = seen;
            if let Some(r) = &self.slots[k] {
                if r.rule_id == id {
                    proof {
                        assert(!seen.contains(id));
                        seen = seen.insert(id);
                    }
                    res.push(*r);
                    proof {
                        assert(res@[res@.len() - 1].rule_id == id);
                    }
                }
            }
            proof {
                assert forall|x: RuleId| #[trigger] seen.contains(x) <==> (rule_slot(x) < k + 1 && self@.contains_key(x)) by {
                    if rule_slot(x) == k {
                        assert(x == id);
                    }
                }
                assert forall|x: RuleId| seen.contains(x) implies exists|i: int| 0 <= i < res@.len() && (#[trigger] res@[i]).rule_id == x by {
                    if old_seen.contains(x) {
                        let i = choose|i: int| 0 <= i < old_res.len() && (#[trigger] old_res[i]).rule_id == x;
                        assert(res@[i] == old_res[i]);
                    } else {
                        assert(res@[res@.len() - 1].rule_id == x);
                    }
                }
            }
            k += 1;
        }
        assert(seen =~= self@.dom());
        res
    }
}

/// Reading a rule after recording its result gives that result back, and
/// the other rules read as they did before.
pub proof fn lemma_read_after_record<A>(before: Map<RuleId, RuleResult<A>>, r: RuleResult<A>, id: RuleId)
    ensures
        before.insert(r.rule_id, r).contains_key(r.rule_id),
        before.insert(r.rule_id, r)[r.rule_id] == r,
        id != r.rule_id ==> before.insert(r.rule_id, r).contains_key(id) == before.contains_key(id)
            && before.insert(r.rule_id, r)[id] == before[id],
{
}

} // verus!
