use vstd::prelude::*;

use crate::batch::aggregator::{eligible_rows, lemma_eligible_rows_counts};
use crate::batch::types::{row_holds, BatchResult, CompactBorgerResult};
use crate::dependency_graph::DependencyGraph;
use crate::eval_context::EvalContext;
use crate::rule_engine::{rule_index, rule_slot, RuleId, RuleResult};

verus! {

/// Number of rows in `rows` eligible for the rule at slot `k`.
pub open spec fn eligible_in<A>(rows: Seq<CompactBorgerResult<A>>, k: int) -> nat
    decreases rows.len(),
{
    if rows.len() == 0 {
        0
    } else {
        eligible_in(rows.drop_last(), k) + if rows.last().eligible@[k] {
            1nat
        } else {
            0nat
        }
    }
}

proof fn lemma_eligible_in_filter<A>(rows: Seq<CompactBorgerResult<A>>, k: int, p: spec_fn(CompactBorgerResult<A>) -> bool)
    requires
        forall|row: CompactBorgerResult<A>| #[trigger] p(row) == row.eligible@[k],
    ensures
        eligible_in(rows, k) == rows.filter(p).len(),
    decreases rows.len(),
{
    reveal(Seq::filter);
    if rows.len() > 0 {
        lemma_eligible_in_filter(rows.drop_last(), k, p);
    }
}

/// The number of eligible citizens is the number of rows whose eligibility
/// flag for the rule at slot `k` is set, whatever the other rules' flags.
pub proof fn lemma_eligible_in_counts<A>(rows: Seq<CompactBorgerResult<A>>, k: int)
    ensures
        eligible_in(rows, k) == rows.filter(|row: CompactBorgerResult<A>| row.eligible@[k]).len(),
{
    let p = |row: CompactBorgerResult<A>| row.eligible@[k];
    lemma_eligible_in_filter(rows, k, p);
}

/// The context left by recording the results `rs` in turn.
pub open spec fn context_of<A>(rs: Seq<RuleResult<A>>) -> Map<RuleId, RuleResult<A>>
    decreases rs.len(),
{
    if rs.len() == 0 {
        Map::empty()
    } else {
        context_of(rs.drop_last()).insert(rs.last().rule_id, rs.last())
    }
}

/// `r` is a result that `evaluate` can give for citizen `i` and rule `id`
/// over a context holding exactly the results `before`.
pub open spec fn evaluated_at<A, F: Fn(usize, RuleId, &EvalContext<A>) -> RuleResult<A>>(
    evaluate: F,
    i: usize,
    id: RuleId,
    before: Seq<RuleResult<A>>,
    r: RuleResult<A>,
) -> bool {
    exists|c: EvalContext<A>| c@ == context_of(before) && #[trigger] evaluate.ensures((i, id, &c), r)
}

/// `rs` are the results of the first `rs.len()` rules of `order`, each
/// evaluated over the results before it.
pub open spec fn evaluated_prefix<A, F: Fn(usize, RuleId, &EvalContext<A>) -> RuleResult<A>>(
    evaluate: F,
    i: usize,
    order: Seq<RuleId>,
    rs: Seq<RuleResult<A>>,
) -> bool {
    &&& rs.len() <= order.len()
    &&& forall|j: int|
        0 <= j < rs.len() ==> #[trigger] evaluated_at(evaluate, i, order[j], rs.take(j), rs[j])
}

/// `rs` are the results of all rules of `order`, in that order.
pub open spec fn evaluated_in_order<A, F: Fn(usize, RuleId, &EvalContext<A>) -> RuleResult<A>>(
    evaluate: F,
    i: usize,
    order: Seq<RuleId>,
    rs: Seq<RuleResult<A>>,
) -> bool {
    evaluated_prefix(evaluate, i, order, rs) && rs.len() == order.len()
}

/// `row` records what evaluating every rule of `order` in turn for citizen
/// `i` gives, with `zero` and `false` at the slots of rules left out.
pub open spec fn row_evaluated<A, F: Fn(usize, RuleId, &EvalContext<A>) -> RuleResult<A>>(
    evaluate: F,
    i: usize,
    order: Seq<RuleId>,
    row: CompactBorgerResult<A>,
    zero: A,
) -> bool {
    exists|rs: Seq<RuleResult<A>>|
        #[trigger] evaluated_in_order(evaluate, i, order, rs) && row_holds(row, context_of(rs), zero)
}

proof fn lemma_prefix_push<A, F: Fn(usize, RuleId, &EvalContext<A>) -> RuleResult<A>>(
    evaluate: F,
    i: usize,
    order: Seq<RuleId>,
    rs: Seq<RuleResult<A>>,
    r: RuleResult<A>,
)
    requires
        evaluated_prefix(evaluate, i, order, rs),
        rs.len() < order.len(),
        evaluated_at(evaluate, i, order[rs.len() as int], rs, r),
    ensures
        evaluated_prefix(evaluate, i, order, rs.push(r)),
{
    let rs2 = rs.push(r);
    assert forall|j: int| 0 <= j < rs2.len() implies #[trigger] evaluated_at(
        evaluate,
        i,
        order[j],
        rs2.take(j),
        rs2[j],
    ) by {
        if j < rs.len() {
            assert(rs2.take(j) =~= rs.take(j));
            assert(evaluated_at(evaluate, i, order[j], rs.take(j), rs[j]));
        } else {
            assert(rs2.take(j) =~= rs);
        }
    }
}

/// Evaluates the rules for citizen `i` in the graph's order, each over the
/// results of the rules before it, and returns the context of all results.
pub fn evaluate_context<A: Copy, F: Fn(usize, RuleId, &EvalContext<A>) -> RuleResult<A>>(
    i: usize,
    graph: &DependencyGraph,
    evaluate: &F,
) -> (ctx: EvalContext<A>)
    requires
        forall|id: RuleId, c: &EvalContext<A>| evaluate.requires((i, id, c)),
    ensures
        exists|rs: Seq<RuleResult<A>>| #[trigger] evaluated_in_order(*evaluate, i, graph@, rs) && ctx@ == context_of(rs),
{
    let order = graph.evaluation_order();
    let n = order.len();
    let mut ctx: EvalContext<A> = EvalContext::new();
    let ghost mut rs: Seq<RuleResult<A>> = Seq::empty();
    assert(ctx@ =~= context_of(rs));
    let mut j: usize = 0;
    while j < n
        invariant
            n == order@.len(),
            order@ == graph@,
            0 <= j <= n,
            rs.len() == j,
            ctx@ == context_of(rs),
            forall|id: RuleId, c: &EvalContext<A>| evaluate.requires((i, id, c)),
            evaluated_prefix(*evaluate, i, graph@, rs),
        decreases n - j,
    {
        let id = order[j];
        let r = evaluate(i, id, &ctx);
        proof {
            assert(evaluated_at(*evaluate, i, graph@[j as int], rs, r));
            lemma_prefix_push(*evaluate, i, graph@, rs, r);
        }
        ctx.insert(r);
        proof {
            assert(rs.push(r).drop_last() =~= rs);
            rs = rs.push(r);
        }
        j += 1;
    }
    proof {
        assert(evaluated_in_order(*evaluate, i, graph@, rs));
    }
    ctx
}

/// Evaluates the rules for citizen `i` with `evaluate_context` and records
/// the results in a row.
pub fn evaluate_row<A: Copy, F: Fn(usize, RuleId, &EvalContext<A>) -> RuleResult<A>>(
    i: usize,
    graph: &DependencyGraph,
    zero: A,
    evaluate: &F,
) -> (row: CompactBorgerResult<A>)
    requires
        forall|id: RuleId, c: &EvalContext<A>| evaluate.requires((i, id, c)),
    ensures
        row_evaluated(*evaluate, i, graph@, row, zero),
{
    let ctx = evaluate_context(i, graph, evaluate);
    CompactBorgerResult::from_context(&ctx, zero)
}

/// Evaluates every citizen below `count` with `evaluate_row`.
pub fn evaluate_rows<A: Copy, F: Fn(usize, RuleId, &EvalContext<A>) -> RuleResult<A>>(
    count: usize,
    graph: &DependencyGraph,
    zero: A,
    evaluate: &F,
) -> (rows: Vec<CompactBorgerResult<A>>)
    requires
        forall|i: usize, id: RuleId, c: &EvalContext<A>| evaluate.requires((i, id, c)),
    ensures
        rows@.len() == count,
        forall|i: int| 0 <= i < count ==> row_evaluated(*evaluate, i as usize, graph@, #[trigger] rows@[i], zero),
{
    let mut rows: Vec<CompactBorgerResult<A>> = Vec::new();
    let mut i: usize = 0;
    while i < count
        invariant
            0 <= i <= count,
            rows@.len() == i,
            forall|i: usize, id: RuleId, c: &EvalContext<A>| evaluate.requires((i, id, c)),
            forall|a: int| 0 <= a < i ==> row_evaluated(*evaluate, a as usize, graph@, #[trigger] rows@[a], zero),
        decreases count - i,
    {
        let row = evaluate_row(i, graph, zero, evaluate);
        let ghost before = rows@;
        rows.push(row);
        proof {
            assert forall|a: int| 0 <= a < i + 1 implies row_evaluated(*evaluate, a as usize, graph@, #[trigger] rows@[a], zero) by {
                if a < i {
                    assert(rows@[a] == before[a]);
                }
            }
        }
        i += 1;
    }
    rows
}

/// Number of citizens eligible for a rule.
pub fn count_eligible<A>(rows: &[CompactBorgerResult<A>], rule_id: RuleId) -> (n: usize)
    ensures
        n == eligible_in(rows@, rule_slot(rule_id)),
        n == rows@.filter(|row: CompactBorgerResult<A>| row.eligible@[rule_slot(rule_id)]).len(),
{
    let k = rule_index(rule_id);
    let len = rows.len();
    let mut n: usize = 0;
    let mut i: usize = 0;
    while i < len
        invariant
            len == rows@.len(),
            0 <= i <= len,
            k == rule_slot(rule_id),
            n == eligible_in(rows@.take(i as int), k as int),
            n <= i,
        decreases len - i,
    {
        assert(rows@.take(i + 1).drop_last() =~= rows@.take(i as int));
        if rows[i].eligible[k] {
            n += 1;
        }
        i += 1;
    }
    assert(rows@.take(len as int) =~= rows@);
    proof {
        lemma_eligible_in_counts(rows@, k as int);
    }
    n
}

/// Number of the given citizens eligible for a rule.
pub fn count_eligible_rows<A>(result: &BatchResult<A>, rows: &[usize], rule_id: RuleId) -> (n: usize)
    requires
        result.wf(),
        forall|a: int| 0 <= a < rows@.len() ==> #[trigger] rows@[a] < result.count,
    ensures
        n == eligible_rows(result.borger_results@, rows@, rule_slot(rule_id)),
        n == rows@.filter(|r: usize| result.borger_results@[r as int].eligible@[rule_slot(rule_id)]).len(),
{
    let k = rule_index(rule_id);
    let len = rows.len();
    let mut n: usize = 0;
    let mut i: usize = 0;
    while i < len
        invariant
            len == rows@.len(),
            result.wf(),
            forall|a: int| 0 <= a < rows@.len() ==> #[trigger] rows@[a] < result.count,
            0 <= i <= len,
            k == rule_slot(rule_id),
            n == eligible_rows(result.borger_results@, rows@.take(i as int), k as int),
            n <= i,
        decreases len - i,
    {
        assert(rows@.take(i + 1).drop_last() =~= rows@.take(i as int));
        if result.borger_results[rows[i]].eligible[k] {
            n += 1;
        }
        i += 1;
    }
    assert(rows@.take(len as int) =~= rows@);
    proof {
        lemma_eligible_rows_counts(result.borger_results@, rows@, k as int);
    }
    n
}

} // verus!
