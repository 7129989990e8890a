use vstd::prelude::*;

use crate::batch::evaluator::{context_of, evaluated_at, evaluated_in_order, evaluated_prefix, row_evaluated};
use crate::batch::types::{merged_row, recorded_result, row_holds, CompactBorgerResult};
use crate::dependency_graph::{comes_before, is_evaluation_order};
use crate::eval_context::EvalContext;
use crate::rule_engine::{lemma_rule_slot_bijection, rule_of_slot, rule_slot, RuleId, RuleNode, RuleResult};
use crate::scenario::incremental::{downstream_closed, replayed_at, replayed_prefix, row_reevaluated};

verus! {

/// Each result of `rs` is labelled with the rule at its place in `ids`.
pub open spec fn labelled_by<A>(rs: Seq<RuleResult<A>>, ids: Seq<RuleId>) -> bool {
    &&& rs.len() == ids.len()
    &&& forall|p: int| 0 <= p < rs.len() ==> (#[trigger] rs[p]).rule_id == ids[p]
}

/// Recording results for distinct rules leaves each rule's own result in the
/// context, and nothing for the other rules.
proof fn lemma_context_lookup<A>(rs: Seq<RuleResult<A>>, ids: Seq<RuleId>)
    requires
        labelled_by(rs, ids),
        ids.no_duplicates(),
    ensures
        forall|p: int|
            0 <= p < ids.len() ==> context_of(rs).contains_key(#[trigger] ids[p]) && context_of(rs)[ids[p]]
                == rs[p],
        forall|id: RuleId| #[trigger] context_of(rs).contains_key(id) <==> ids.contains(id),
    decreases rs.len(),
{
    if rs.len() > 0 {
        let n = rs.len() - 1;
        assert(ids.drop_last().no_duplicates());
        lemma_context_lookup(rs.drop_last(), ids.drop_last());
        assert forall|p: int| 0 <= p < ids.len() implies context_of(rs).contains_key(#[trigger] ids[p])
            && context_of(rs)[ids[p]] == rs[p] by {
            if p < n {
                assert(ids.drop_last()[p] == ids[p]);
                assert(ids[p] != ids[n]);
            }
        }
        assert forall|id: RuleId| #[trigger] context_of(rs).contains_key(id) <==> ids.contains(id) by {
            if ids.contains(id) {
                let p = choose|p: int| 0 <= p < ids.len() && ids[p] == id;
                assert(context_of(rs).contains_key(ids[p]));
            }
            if context_of(rs).contains_key(id) && id != ids[n] {
                assert(rs.last().rule_id == ids[n]);
                assert(context_of(rs.drop_last()).contains_key(id));
                assert(ids.drop_last().contains(id));
                let p = choose|p: int| 0 <= p < ids.drop_last().len() && ids.drop_last()[p] == id;
                assert(ids[p] == id);
            }
        }
    } else {
        assert(context_of(rs) =~= Map::<RuleId, RuleResult<A>>::empty());
    }
}

/// The two contexts hold the same results for every rule that `id` reads.
pub open spec fn agree_on_inputs<A>(
    rules: Seq<RuleNode>,
    id: RuleId,
    m1: Map<RuleId, RuleResult<A>>,
    m2: Map<RuleId, RuleResult<A>>,
) -> bool {
    forall|k: int, m: int|
        0 <= k < rules.len() && rules[k].id == id && 0 <= m < rules[k].dependencies@.len() ==> {
            let d = #[trigger] rules[k].dependencies@[m];
            m1.contains_key(d) == m2.contains_key(d) && m1[d] == m2[d]
        }
}

/// For citizen `i`, `f` and `g` give one and the same result for rule `id`
/// over any two contexts that agree on what `id` reads.
pub open spec fn same_results<A, F: Fn(usize, RuleId, &EvalContext<A>) -> RuleResult<A>, G: Fn(usize, RuleId, &EvalContext<A>) -> RuleResult<A>>(
    f: F,
    g: G,
    i: usize,
    rules: Seq<RuleNode>,
    id: RuleId,
) -> bool {
    forall|c1: EvalContext<A>, c2: EvalContext<A>, r1: RuleResult<A>, r2: RuleResult<A>|
        agree_on_inputs(rules, id, c1@, c2@) && #[trigger] f.ensures((i, id, &c1), r1) && #[trigger] g.ensures(
            (i, id, &c2),
            r2,
        ) ==> r1 == r2
}

/// Every result that `f` gives for citizen `i` is labelled with its rule.
pub open spec fn labels_results<A, F: Fn(usize, RuleId, &EvalContext<A>) -> RuleResult<A>>(f: F, i: usize) -> bool {
    forall|id: RuleId, c: EvalContext<A>, r: RuleResult<A>| #[trigger] f.ensures((i, id, &c), r) ==> r.rule_id == id
}

proof fn lemma_evaluated_labels<A, F: Fn(usize, RuleId, &EvalContext<A>) -> RuleResult<A>>(
    f: F,
    i: usize,
    order: Seq<RuleId>,
    rs: Seq<RuleResult<A>>,
)
    requires
        evaluated_prefix(f, i, order, rs),
        labels_results(f, i),
    ensures
        labelled_by(rs, order.take(rs.len() as int)),
{
    assert forall|p: int| 0 <= p < rs.len() implies (#[trigger] rs[p]).rule_id == order.take(rs.len() as int)[p] by {
        assert(evaluated_at(f, i, order[p], rs.take(p), rs[p]));
    }
}

proof fn lemma_replayed_labels<A, F: Fn(usize, RuleId, &EvalContext<A>) -> RuleResult<A>>(
    f: F,
    i: usize,
    order: Seq<RuleId>,
    dirty: Set<RuleId>,
    base: CompactBorgerResult<A>,
    rs: Seq<RuleResult<A>>,
)
    requires
        replayed_prefix(f, i, order, dirty, base, rs),
        labels_results(f, i),
    ensures
        labelled_by(rs, order.take(rs.len() as int)),
{
    assert forall|p: int| 0 <= p < rs.len() implies (#[trigger] rs[p]).rule_id == order.take(rs.len() as int)[p] by {
        assert(replayed_at(f, i, order[p], dirty, base, rs.take(p), rs[p]));
        if dirty.contains(order[p]) {
            assert(evaluated_at(f, i, order[p], rs.take(p), rs[p]));
        }
    }
}

/// Up to place `j` the replay gives the fresh run's results, and the old run
/// gives them too at the clean rules.
spec fn runs_agree<A>(
    order: Seq<RuleId>,
    dirty: Set<RuleId>,
    rs_old: Seq<RuleResult<A>>,
    rs_new: Seq<RuleResult<A>>,
    rs_re: Seq<RuleResult<A>>,
    j: int,
) -> bool {
    forall|p: int|
        0 <= p < j ==> rs_re[p] == #[trigger] rs_new[p] && (!dirty.contains(order[p]) ==> rs_old[p] == rs_new[p])
}

/// Two runs that agree on the places before `j` give contexts at `j` that
/// agree on what the rule at `j` reads.
proof fn lemma_inputs_agree<A>(
    rules: Seq<RuleNode>,
    order: Seq<RuleId>,
    r1: Seq<RuleResult<A>>,
    r2: Seq<RuleResult<A>>,
    j: int,
    clean: Set<RuleId>,
)
    requires
        is_evaluation_order(order, rules),
        0 <= j < order.len(),
        j <= r1.len(),
        j <= r2.len(),
        labelled_by(r1.take(j), order.take(j)),
        labelled_by(r2.take(j), order.take(j)),
        forall|p: int| 0 <= p < j && clean.contains(order[p]) ==> #[trigger] r1[p] == r2[p],
        forall|k: int, m: int|
            0 <= k < rules.len() && rules[k].id == order[j] && 0 <= m < rules[k].dependencies@.len()
                ==> clean.contains(#[trigger] rules[k].dependencies@[m]),
    ensures
        agree_on_inputs(rules, order[j], context_of(r1.take(j)), context_of(r2.take(j))),
{
    assert(order.take(j).no_duplicates());
    lemma_context_lookup(r1.take(j), order.take(j));
    lemma_context_lookup(r2.take(j), order.take(j));
    assert forall|k: int, m: int|
        0 <= k < rules.len() && rules[k].id == order[j] && 0 <= m < rules[k].dependencies@.len() implies {
        let d = #[trigger] rules[k].dependencies@[m];
        context_of(r1.take(j)).contains_key(d) == context_of(r2.take(j)).contains_key(d) && context_of(r1.take(j))[d]
            == context_of(r2.take(j))[d]
    } by {
        let d = rules[k].dependencies@[m];
        assert(comes_before(order, d, rules[k].id));
        let (p, q) = choose|p: int, q: int| 0 <= p < q < order.len() && order[p] == d && order[q] == rules[k].id;
        assert(q == j);
        assert(order.take(j)[p] == d);
        assert(r1.take(j)[p] == r1[p]);
        assert(r2.take(j)[p] == r2[p]);
        assert(clean.contains(d));
    }
}

proof fn lemma_labelled_take<A>(rs: Seq<RuleResult<A>>, ids: Seq<RuleId>, q: int)
    requires
        labelled_by(rs, ids),
        0 <= q <= rs.len(),
    ensures
        labelled_by(rs.take(q), ids.take(q)),
{
    assert forall|p: int| 0 <= p < q implies (#[trigger] rs.take(q)[p]).rule_id == ids.take(q)[p] by {
        assert(rs.take(q)[p] == rs[p]);
    }
}

proof fn lemma_runs_agree<
    A,
    F: Fn(usize, RuleId, &EvalContext<A>) -> RuleResult<A>,
    G: Fn(usize, RuleId, &EvalContext<A>) -> RuleResult<A>,
>(
    old_eval: F,
    new_eval: G,
    i: usize,
    rules: Seq<RuleNode>,
    order: Seq<RuleId>,
    dirty: Set<RuleId>,
    base: CompactBorgerResult<A>,
    rs_old: Seq<RuleResult<A>>,
    rs_new: Seq<RuleResult<A>>,
    rs_re: Seq<RuleResult<A>>,
    zero: A,
    j: int,
)
    requires
        is_evaluation_order(order, rules),
        downstream_closed(dirty, rules),
        labels_results(old_eval, i),
        labels_results(new_eval, i),
        forall|id: RuleId| #[trigger] same_results(new_eval, new_eval, i, rules, id),
        forall|id: RuleId| !dirty.contains(id) ==> #[trigger] same_results(old_eval, new_eval, i, rules, id),
        evaluated_prefix(old_eval, i, order, rs_old),
        rs_old.len() == order.len(),
        evaluated_prefix(new_eval, i, order, rs_new),
        rs_new.len() == order.len(),
        replayed_prefix(new_eval, i, order, dirty, base, rs_re),
        rs_re.len() == order.len(),
        row_holds(base, context_of(rs_old), zero),
        0 <= j <= order.len(),
    ensures
        runs_agree(order, dirty, rs_old, rs_new, rs_re, j),
    decreases j,
{
    if j > 0 {
        let q = j - 1;
        lemma_runs_agree(old_eval, new_eval, i, rules, order, dirty, base, rs_old, rs_new, rs_re, zero, q);
        let id = order[q];
        assert(order.take(order.len() as int) =~= order);
        lemma_evaluated_labels(old_eval, i, order, rs_old);
        lemma_evaluated_labels(new_eval, i, order, rs_new);
        lemma_replayed_labels(new_eval, i, order, dirty, base, rs_re);
        lemma_labelled_take(rs_old, order, q);
        lemma_labelled_take(rs_new, order, q);
        lemma_labelled_take(rs_re, order, q);
        assert(evaluated_at(new_eval, i, id, rs_new.take(q), rs_new[q]));
        let c_new = choose|c: EvalContext<A>|
            c@ == context_of(rs_new.take(q)) && #[trigger] new_eval.ensures((i, id, &c), rs_new[q]);
        assert(replayed_at(new_eval, i, id, dirty, base, rs_re.take(q), rs_re[q]));
        if dirty.contains(id) {
            let all = Set::<RuleId>::full();
            lemma_inputs_agree(rules, order, rs_re, rs_new, q, all);
            assert(evaluated_at(new_eval, i, id, rs_re.take(q), rs_re[q]));
            let c_re = choose|c: EvalContext<A>|
                c@ == context_of(rs_re.take(q)) && #[trigger] new_eval.ensures((i, id, &c), rs_re[q]);
            assert(same_results(new_eval, new_eval, i, rules, id));
            assert(rs_re[q] == rs_new[q]);
        } else {
            let clean = Set::new(|d: RuleId| !dirty.contains(d));
            assert forall|k: int, m: int|
                0 <= k < rules.len() && rules[k].id == order[q] && 0 <= m < rules[k].dependencies@.len()
                    implies clean.contains(#[trigger] rules[k].dependencies@[m]) by {
                if dirty.contains(rules[k].dependencies@[m]) {
                    assert(dirty.contains(rules[k].id));
                }
            }
            lemma_inputs_agree(rules, order, rs_old, rs_new, q, clean);
            assert(evaluated_at(old_eval, i, id, rs_old.take(q), rs_old[q]));
            let c_old = choose|c: EvalContext<A>|
                c@ == context_of(rs_old.take(q)) && #[trigger] old_eval.ensures((i, id, &c), rs_old[q]);
            assert(same_results(old_eval, new_eval, i, rules, id));
            assert(rs_old[q] == rs_new[q]);
            lemma_context_lookup(rs_old, order);
            assert(context_of(rs_old).contains_key(order[q]));
            assert(base.amounts@[rule_slot(id)] == rs_old[q].amount);
            assert(base.eligible@[rule_slot(id)] == rs_old[q].eligible);
            assert(rs_re[q] == recorded_result(base, id));
            assert(rs_re[q] == rs_new[q]);
        }
    }
}

/// Re-evaluating only the dirty rules of a baseline row gives the row that a
/// full evaluation with the new rules gives, when the dirty rules are closed
/// downstream, each rule reads only the rules it declares, the new rules
/// give one result per input, labelled with its rule, and the clean rules
/// give what the baseline's rules gave.
pub proof fn lemma_reevaluation_matches_full_evaluation<
    A,
    F: Fn(usize, RuleId, &EvalContext<A>) -> RuleResult<A>,
    G: Fn(usize, RuleId, &EvalContext<A>) -> RuleResult<A>,
>(
    old_eval: F,
    new_eval: G,
    i: usize,
    rules: Seq<RuleNode>,
    order: Seq<RuleId>,
    dirty: Set<RuleId>,
    base: CompactBorgerResult<A>,
    row: CompactBorgerResult<A>,
    full: CompactBorgerResult<A>,
    zero: A,
)
    requires
        is_evaluation_order(order, rules),
        downstream_closed(dirty, rules),
        labels_results(old_eval, i),
        labels_results(new_eval, i),
        forall|id: RuleId| #[trigger] same_results(new_eval, new_eval, i, rules, id),
        forall|id: RuleId| !dirty.contains(id) ==> #[trigger] same_results(old_eval, new_eval, i, rules, id),
        row_evaluated(old_eval, i, order, base, zero),
        row_reevaluated(new_eval, i, order, dirty, base, row),
        row_evaluated(new_eval, i, order, full, zero),
    ensures
        row.amounts@ == full.amounts@,
        row.eligible@ == full.eligible@,
{
    lemma_rule_slot_bijection();
    let rs_old = choose|rs: Seq<RuleResult<A>>|
        #[trigger] evaluated_in_order(old_eval, i, order, rs) && row_holds(base, context_of(rs), zero);
    let rs_new = choose|rs: Seq<RuleResult<A>>|
        #[trigger] evaluated_in_order(new_eval, i, order, rs) && row_holds(full, context_of(rs), zero);
    let rs_re = choose|rs: Seq<RuleResult<A>>|
        #[trigger] replayed_prefix(new_eval, i, order, dirty, base, rs) && rs.len() == order.len()
            && merged_row(base, context_of(rs), dirty, row);
    let n = order.len() as int;
    lemma_runs_agree(old_eval, new_eval, i, rules, order, dirty, base, rs_old, rs_new, rs_re, zero, n);
    assert(order.take(n) =~= order);
    lemma_evaluated_labels(old_eval, i, order, rs_old);
    lemma_evaluated_labels(new_eval, i, order, rs_new);
    lemma_replayed_labels(new_eval, i, order, dirty, base, rs_re);
    lemma_context_lookup(rs_old, order);
    lemma_context_lookup(rs_new, order);
    lemma_context_lookup(rs_re, order);
    assert forall|id: RuleId|
        row.amounts@[rule_slot(id)] == full.amounts@[rule_slot(id)] && row.eligible@[rule_slot(id)]
            == full.eligible@[rule_slot(id)] by {
        if order.contains(id) {
            let p = choose|p: int| 0 <= p < order.len() && order[p] == id;
            assert(context_of(rs_new).contains_key(order[p]));
            assert(context_of(rs_re).contains_key(order[p]));
            assert(context_of(rs_old).contains_key(order[p]));
            assert(rs_re[p] == rs_new[p]);
            if !dirty.contains(id) {
                assert(rs_old[p] == rs_new[p]);
            }
        } else {
            assert(!context_of(rs_new).contains_key(id));
            assert(!context_of(rs_re).contains_key(id));
            assert(!context_of(rs_old).contains_key(id));
        }
    }
    assert forall|k: int| 0 <= k < 3 implies #[trigger] row.amounts@[k] == full.amounts@[k] by {
        let id = rule_of_slot(k);
        assert(row.amounts@[rule_slot(id)] == full.amounts@[rule_slot(id)]);
    }
    assert forall|k: int| 0 <= k < 3 implies #[trigger] row.eligible@[k] == full.eligible@[k] by {
        let id = rule_of_slot(k);
        assert(row.eligible@[rule_slot(id)] == full.eligible@[rule_slot(id)]);
    }
    assert(row.amounts@.len() == 3 && full.amounts@.len() == 3);
    assert(row.eligible@.len() == 3 && full.eligible@.len() == 3);
    assert(row.amounts@ =~= full.amounts@);
    assert(row.eligible@ =~= full.eligible@);
}

} // verus!
