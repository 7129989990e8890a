use vstd::prelude::*;

use crate::batch::evaluator::{context_of, evaluated_at};
use crate::batch::types::{merged_row, recorded_result, CompactBorgerResult};
use crate::dependency_graph::DependencyGraph;
use crate::eval_context::EvalContext;
use crate::rule_engine::{
    lemma_rule_slot_bijection, rule_at, rule_index, rule_of_slot, rule_slot, RuleId, RuleNode, RuleResult,
};
use crate::scenario::param_mapping::{ParamId, ParamRuleMapping};

verus! {

/// A set of rules.
#[derive(Debug, Clone, Copy)]
pub struct RuleSet {
    members: [bool; 3],
}

impl View for RuleSet {
    type V = Set<RuleId>;

    closed spec fn view(&self) -> Set<RuleId> {
        Set::new(|id: RuleId| self.members@[rule_slot(id)])
    }
}

/// Number of rules outside the set.
spec fn missing_count(members: Seq<bool>) -> int {
    (if members[0] { 0int } else { 1int }) + (if members[1] { 0int } else { 1int }) + (if members[2] {
        0int
    } else {
        1int
    })
}

impl RuleSet {
    pub fn new() -> (s: Self)
        ensures
            s@ == Set::<RuleId>::empty(),
    {
        let s = RuleSet { members: [false, false, false] };
        assert(s@ =~= Set::<RuleId>::empty());
        s
    }

    pub fn contains(&self, rule_id: &RuleId) -> (b: bool)
        ensures
            b == self@.contains(*rule_id),
    {
        self.members[rule_index(*rule_id)]
    }

    pub fn insert(&mut self, rule_id: RuleId)
        ensures
            final(self)@ == old(self)@.insert(rule_id),
            !old(self)@.contains(rule_id) ==> final(self).missing() == old(self).missing() - 1,
            0 <= final(self).missing() <= 3,
    {
        proof {
            lemma_rule_slot_bijection();
        }
        let k = rule_index(rule_id);
        self.members[k] = true;
        assert(self@ =~= old(self)@.insert(rule_id));
    }

    /// Number of rules outside the set.
    pub closed spec fn missing(&self) -> int {
        missing_count(self.members@)
    }
}

/// The root rules that the changed parameters affect directly.
pub open spec fn changed_roots<V>(overrides: Seq<(ParamId, V)>, mapping: Map<ParamId, Seq<RuleId>>) -> Set<
    RuleId,
> {
    Set::new(
        |id: RuleId|
            exists|i: int|
                0 <= i < overrides.len() && #[trigger] mapping[overrides[i].0].contains(id),
    )
}

/// A rule that reads a member of `s` is itself in `s`.
pub open spec fn downstream_closed(s: Set<RuleId>, rules: Seq<RuleNode>) -> bool {
    forall|i: int, j: int|
        0 <= i < rules.len() && 0 <= j < rules[i].dependencies@.len() && s.contains(
            #[trigger] rules[i].dependencies@[j],
        ) ==> s.contains(rules[i].id)
}

/// `s` is the least set that holds `base` and is closed downstream.
pub open spec fn is_downstream_closure(s: Set<RuleId>, base: Set<RuleId>, rules: Seq<RuleNode>) -> bool {
    &&& base.subset_of(s)
    &&& downstream_closed(s, rules)
    &&& forall|t: Set<RuleId>|
        #![trigger downstream_closed(t, rules)]
        base.subset_of(t) && downstream_closed(t, rules) ==> s.subset_of(t)
}

/// Whether some dependency of `node` is in `dirty`.
fn reads_dirty(node: &RuleNode, dirty: &RuleSet) -> (b: bool)
    ensures
        b == exists|j: int|
            0 <= j < node.dependencies@.len() && dirty@.contains(#[trigger] node.dependencies@[j]),
{
    let deps = &node.dependencies;
    let m = deps.len();
    let mut j: usize = 0;
    while j < m
        invariant
            deps@ == node.dependencies@,
            m == deps@.len(),
            0 <= j <= m,
            forall|jj: int| 0 <= jj < j ==> !dirty@.contains(#[trigger] deps@[jj]),
        decreases m - j,
    {
        if dirty.contains(&deps[j]) {
            return true;
        }
        j += 1;
    }
    false
}

/// Adds every rule downstream of a member, until no rule reads a member
/// without being one.
pub fn propagate_downstream(dirty: &mut RuleSet, all_rules: &[RuleNode])
    ensures
        is_downstream_closure(final(dirty)@, old(dirty)@, all_rules@),
{
    let ghost base = dirty@;
    let n = all_rules.len();
    let mut changed = true;
    while changed
        invariant
            n == all_rules@.len(),
            base.subset_of(dirty@),
            forall|t: Set<RuleId>|
                #![trigger downstream_closed(t, all_rules@)]
                base.subset_of(t) && downstream_closed(t, all_rules@) ==> dirty@.subset_of(t),
            !changed ==> downstream_closed(dirty@, all_rules@),
            0 <= dirty.missing() <= 3,
        decreases dirty.missing(), if changed {
            1int
        } else {
            0int
        },
    {
        changed = false;
        let ghost start = dirty.missing();
        let mut i: usize = 0;
        while i < n
            invariant
                n == all_rules@.len(),
                0 <= i <= n,
                base.subset_of(dirty@),
                forall|t: Set<RuleId>|
                    #![trigger downstream_closed(t, all_rules@)]
                    base.subset_of(t) && downstream_closed(t, all_rules@) ==> dirty@.subset_of(t),
                0 <= dirty.missing() <= 3,
                changed ==> dirty.missing() < start,
                !changed ==> dirty.missing() == start,
                !changed ==> forall|a: int, j: int|
                    0 <= a < i && 0 <= j < all_rules@[a].dependencies@.len() && dirty@.contains(
                        #[trigger] all_rules@[a].dependencies@[j],
                    ) ==> dirty@.contains(all_rules@[a].id),
            decreases n - i,
        {
            let node = &all_rules[i];
            if !dirty.contains(&node.id) {
                if reads_dirty(node, dirty) {
                    let ghost before = dirty@;
                    proof {
                        lemma_rule_slot_bijection();
                        assert forall|t: Set<RuleId>|
                            #![trigger downstream_closed(t, all_rules@)]
                            base.subset_of(t) && downstream_closed(t, all_rules@) implies before.insert(
                            node.id,
                        ).subset_of(t) by {
                            let j = choose|j: int|
                                0 <= j < node.dependencies@.len() && before.contains(
                                    #[trigger] node.dependencies@[j],
                                );
                            assert(all_rules@[i as int].dependencies@[j] == node.dependencies@[j]);
                        }
                    }
                    dirty.insert(node.id);
                    changed = true;
                }
            }
            i += 1;
        }
    }
}

/// The rules to re-evaluate after the given parameter changes: the root rules
/// that the parameters affect, and every rule downstream of them.
pub fn compute_dirty_set<V>(
    overrides: &[(ParamId, V)],
    mapping: &ParamRuleMapping,
    _graph: &DependencyGraph,
    all_rules: &[RuleNode],
) -> (dirty: RuleSet)
    ensures
        is_downstream_closure(dirty@, changed_roots(overrides@, mapping@), all_rules@),
{
    let mut dirty = RuleSet::new();
    let n = overrides.len();
    let mut i: usize = 0;
    while i < n
        invariant
            n == overrides@.len(),
            0 <= i <= n,
            dirty@ == Set::new(
                |id: RuleId|
                    exists|a: int|
                        0 <= a < i && #[trigger] mapping@[overrides@[a].0].contains(id),
            ),
        decreases n - i,
    {
        let roots = mapping.affected_roots(overrides[i].0);
        let m = roots.len();
        let mut j: usize = 0;
        let ghost prev = dirty@;
        while j < m
            invariant
                n == overrides@.len(),
                0 <= i < n,
                roots@ == mapping@[overrides@[i as int].0],
                m == roots@.len(),
                0 <= j <= m,
                dirty@ == prev.union(Set::new(|id: RuleId| exists|b: int| 0 <= b < j && roots@[b] == id)),
            decreases m - j,
        {
            dirty.insert(roots[j]);
            proof {
                assert(Set::new(|id: RuleId| exists|b: int| 0 <= b < j + 1 && roots@[b] == id) =~= Set::new(
                    |id: RuleId| exists|b: int| 0 <= b < j && roots@[b] == id,
                ).insert(roots@[j as int]));
            }
            j += 1;
        }
        proof {
            assert(dirty@ =~= Set::new(
                |id: RuleId|
                    exists|a: int|
                        0 <= a < i + 1 && #[trigger] mapping@[overrides@[a].0].contains(id),
            )) by {
                assert forall|id: RuleId|
                    (exists|a: int| 0 <= a < i + 1 && #[trigger] mapping@[overrides@[a].0].contains(id))
                        implies dirty@.contains(id) by {
                    let a = choose|a: int| 0 <= a < i + 1 && #[trigger] mapping@[overrides@[a].0].contains(id);
                    if a == i {
                        let b = choose|b: int| 0 <= b < roots@.len() && roots@[b] == id;
                        assert(Set::new(|id: RuleId| exists|b: int| 0 <= b < m && roots@[b] == id).contains(id));
                    } else {
                        assert(prev.contains(id));
                    }
                }
                assert forall|id: RuleId| dirty@.contains(id) implies
                    (exists|a: int| 0 <= a < i + 1 && #[trigger] mapping@[overrides@[a].0].contains(id)) by {
                    if prev.contains(id) {
                        let a = choose|a: int| 0 <= a < i && #[trigger] mapping@[overrides@[a].0].contains(id);
                        assert(0 <= a < i + 1 && mapping@[overrides@[a].0].contains(id));
                    } else {
                        assert(Set::new(|id: RuleId| exists|b: int| 0 <= b < m && roots@[b] == id).contains(id));
                        let b = choose|b: int| 0 <= b < m && roots@[b] == id;
                        assert(roots@.contains(id));
                        assert(mapping@[overrides@[i as int].0].contains(id));
                    }
                }
            }
        }
        i += 1;
    }
    assert(dirty@ =~= changed_roots(overrides@, mapping@));
    propagate_downstream(&mut dirty, all_rules);
    dirty
}

/// For each rule in evaluation order: its slot, and whether it must be re-evaluated.
pub fn evaluation_plan(order: &[RuleId], dirty: &RuleSet) -> (plan: Vec<(usize, bool)>)
    ensures
        plan@.len() == order@.len(),
        forall|i: int|
            0 <= i < order@.len() ==> (#[trigger] plan@[i]).0 == rule_slot(order@[i]) && plan@[i].1
                == dirty@.contains(order@[i]),
{
    let n = order.len();
    let mut plan: Vec<(usize, bool)> = Vec::new();
    let mut i: usize = 0;
    while i < n
        invariant
            n == order@.len(),
            0 <= i <= n,
            plan@.len() == i,
            forall|a: int|
                0 <= a < i ==> (#[trigger] plan@[a]).0 == rule_slot(order@[a]) && plan@[a].1
                    == dirty@.contains(order@[a]),
        decreases n - i,
    {
        plan.push((rule_index(order[i]), dirty.contains(&order[i])));
        i += 1;
    }
    plan
}

/// `r` is what the replay gives for rule `id`: a fresh result over the
/// results `before` if the rule is dirty, else the baseline's result.
pub open spec fn replayed_at<A, F: Fn(usize, RuleId, &EvalContext<A>) -> RuleResult<A>>(
    evaluate: F,
    i: usize,
    id: RuleId,
    dirty: Set<RuleId>,
    base: CompactBorgerResult<A>,
    before: Seq<RuleResult<A>>,
    r: RuleResult<A>,
) -> bool {
    if dirty.contains(id) {
        evaluated_at(evaluate, i, id, before, r)
    } else {
        r == recorded_result(base, id)
    }
}

/// `rs` replays the first `rs.len()` rules of `order` in turn.
pub open spec fn replayed_prefix<A, F: Fn(usize, RuleId, &EvalContext<A>) -> RuleResult<A>>(
    evaluate: F,
    i: usize,
    order: Seq<RuleId>,
    dirty: Set<RuleId>,
    base: CompactBorgerResult<A>,
    rs: Seq<RuleResult<A>>,
) -> bool {
    &&& rs.len() <= order.len()
    &&& forall|j: int|
        0 <= j < rs.len() ==> #[trigger] replayed_at(evaluate, i, order[j], dirty, base, rs.take(j), rs[j])
}

/// `row` is the baseline row `base` of citizen `i` with every dirty rule of
/// `order` re-evaluated in turn over the results before it (fresh ones for
/// dirty rules, the baseline's for clean ones).
pub open spec fn row_reevaluated<A, F: Fn(usize, RuleId, &EvalContext<A>) -> RuleResult<A>>(
    evaluate: F,
    i: usize,
    order: Seq<RuleId>,
    dirty: Set<RuleId>,
    base: CompactBorgerResult<A>,
    row: CompactBorgerResult<A>,
) -> bool {
    exists|rs: Seq<RuleResult<A>>|
        #[trigger] replayed_prefix(evaluate, i, order, dirty, base, rs) && rs.len() == order.len()
            && merged_row(base, context_of(rs), dirty, row)
}

proof fn lemma_replayed_push<A, F: Fn(usize, RuleId, &EvalContext<A>) -> RuleResult<A>>(
    evaluate: F,
    i: usize,
    order: Seq<RuleId>,
    dirty: Set<RuleId>,
    base: CompactBorgerResult<A>,
    rs: Seq<RuleResult<A>>,
    r: RuleResult<A>,
)
    requires
        replayed_prefix(evaluate, i, order, dirty, base, rs),
        rs.len() < order.len(),
        replayed_at(evaluate, i, order[rs.len() as int], dirty, base, rs, r),
    ensures
        replayed_prefix(evaluate, i, order, dirty, base, rs.push(r)),
{
    let rs2 = rs.push(r);
    assert forall|j: int| 0 <= j < rs2.len() implies #[trigger] replayed_at(
        evaluate,
        i,
        order[j],
        dirty,
        base,
        rs2.take(j),
        rs2[j],
    ) by {
        if j < rs.len() {
            assert(rs2.take(j) =~= rs.take(j));
            assert(replayed_at(evaluate, i, order[j], dirty, base, rs.take(j), rs[j]));
        } else {
            assert(rs2.take(j) =~= rs);
        }
    }
}

/// Re-evaluates the dirty rules for citizen `i` in the graph's order, each
/// over the results before it, taking the baseline's results for the clean
/// rules, and merges the fresh results into the baseline row.
pub fn reevaluate_row<A: Copy, F: Fn(usize, RuleId, &EvalContext<A>) -> RuleResult<A>>(
    i: usize,
    base: &CompactBorgerResult<A>,
    graph: &DependencyGraph,
    dirty: &RuleSet,
    evaluate: &F,
) -> (row: CompactBorgerResult<A>)
    requires
        forall|id: RuleId, c: &EvalContext<A>| evaluate.requires((i, id, c)),
    ensures
        row_reevaluated(*evaluate, i, graph@, dirty@, *base, row),
        forall|id: RuleId|
            #![trigger row.amounts@[rule_slot(id)]]
            !dirty@.contains(id) ==> row.amounts@[rule_slot(id)] == base.amounts@[rule_slot(id)]
                && row.eligible@[rule_slot(id)] == base.eligible@[rule_slot(id)],
{
    proof {
        lemma_rule_slot_bijection();
    }
    let plan = evaluation_plan(graph.evaluation_order(), dirty);
    let n = plan.len();
    let mut ctx: EvalContext<A> = EvalContext::new();
    let ghost mut rs: Seq<RuleResult<A>> = Seq::empty();
    assert(ctx@ =~= context_of(rs));
    let mut j: usize = 0;
    while j < n
        invariant
            n == plan@.len(),
            n == graph@.len(),
            forall|a: int|
                0 <= a < graph@.len() ==> (#[trigger] plan@[a]).0 == rule_slot(graph@[a]) && plan@[a].1
                    == dirty@.contains(graph@[a]),
            forall|k: int| 0 <= k < 3 ==> rule_slot(#[trigger] rule_of_slot(k)) == k,
            forall|id: RuleId| rule_of_slot(#[trigger] rule_slot(id)) == id,
            0 <= j <= n,
            rs.len() == j,
            ctx@ == context_of(rs),
            forall|id: RuleId, c: &EvalContext<A>| evaluate.requires((i, id, c)),
            replayed_prefix(*evaluate, i, graph@, dirty@, *base, rs),
        decreases n - j,
    {
        let (idx, is_dirty) = plan[j];
        let rid = rule_at(idx);
        assert(rid == graph@[j as int]);
        let r = if is_dirty {
            evaluate(i, rid, &ctx)
        } else {
            base.rule_result(rid)
        };
        proof {
            assert(replayed_at(*evaluate, i, graph@[j as int], dirty@, *base, rs, r));
            lemma_replayed_push(*evaluate, i, graph@, dirty@, *base, rs, r);
        }
        ctx.insert(r);
        proof {
            assert(rs.push(r).drop_last() =~= rs);
            rs = rs.push(r);
        }
        j += 1;
    }
    let row = base.merge_reevaluated(&ctx, dirty);
    proof {
        assert(replayed_prefix(*evaluate, i, graph@, dirty@, *base, rs));
    }
    row
}

/// Re-evaluates every citizen below `count` with `reevaluate_row`, against
/// its row of the baseline.
pub fn reevaluate_rows<A: Copy, F: Fn(usize, RuleId, &EvalContext<A>) -> RuleResult<A>>(
    count: usize,
    baseline: &[CompactBorgerResult<A>],
    graph: &DependencyGraph,
    dirty: &RuleSet,
    evaluate: &F,
) -> (rows: Vec<CompactBorgerResult<A>>)
    requires
        count <= baseline@.len(),
        forall|i: usize, id: RuleId, c: &EvalContext<A>| evaluate.requires((i, id, c)),
    ensures
        rows@.len() == count,
        forall|i: int|
            0 <= i < count ==> row_reevaluated(*evaluate, i as usize, graph@, dirty@, baseline@[i], #[trigger] rows@[i]),
        forall|i: int, id: RuleId|
            #![trigger rows@[i].amounts@[rule_slot(id)]]
            0 <= i < count && !dirty@.contains(id) ==> rows@[i].amounts@[rule_slot(id)]
                == baseline@[i].amounts@[rule_slot(id)] && rows@[i].eligible@[rule_slot(id)]
                == baseline@[i].eligible@[rule_slot(id)],
{
    let mut rows: Vec<CompactBorgerResult<A>> = Vec::new();
    let mut i: usize = 0;
    while i < count
        invariant
            0 <= i <= count,
            count <= baseline@.len(),
            rows@.len() == i,
            forall|i: usize, id: RuleId, c: &EvalContext<A>| evaluate.requires((i, id, c)),
            forall|a: int|
                0 <= a < i ==> row_reevaluated(*evaluate, a as usize, graph@, dirty@, baseline@[a], #[trigger] rows@[a]),
            forall|a: int, id: RuleId|
                #![trigger rows@[a].amounts@[rule_slot(id)]]
                0 <= a < i && !dirty@.contains(id) ==> rows@[a].amounts@[rule_slot(id)]
                    == baseline@[a].amounts@[rule_slot(id)] && rows@[a].eligible@[rule_slot(id)]
                    == baseline@[a].eligible@[rule_slot(id)],
        decreases count - i,
    {
        let row = reevaluate_row(i, &baseline[i], graph, dirty, evaluate);
        let ghost before = rows@;
        rows.push(row);
        proof {
            assert forall|a: int| 0 <= a < i + 1 implies row_reevaluated(
                *evaluate,
                a as usize,
                graph@,
                dirty@,
                baseline@[a],
                #[trigger] rows@[a],
            ) by {
                if a < i {
                    assert(rows@[a] == before[a]);
                }
            }
            assert forall|a: int, id: RuleId|
                0 <= a < i + 1 && !dirty@.contains(id) implies #[trigger] rows@[a].amounts@[rule_slot(id)]
                    == baseline@[a].amounts@[rule_slot(id)] && rows@[a].eligible@[rule_slot(id)]
                    == baseline@[a].eligible@[rule_slot(id)] by {
                if a < i {
                    assert(rows@[a] == before[a]);
                }
            }
        }
        i += 1;
    }
    rows
}

} // verus!
