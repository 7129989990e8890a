use kmd_engine::batch::aggregator::group_by_segment;
use kmd_engine::batch::evaluator::{count_eligible, count_eligible_rows, evaluate_row, evaluate_rows};
use kmd_engine::dependency_graph::DependencyGraph;
use kmd_engine::rules::standard_rules;
use kmd_engine::scenario::incremental::{reevaluate_row, reevaluate_rows, RuleSet};
use kmd_engine::batch::histogram::{bucket_counts, histogram_bucket_count};
use kmd_engine::batch::top_n::{rank_by_key, top_n};
use kmd_engine::batch::types::{BatchResult, CompactBorgerResult, SegmentKey};
use kmd_engine::borger_store::BorgerStore;
use kmd_engine::eval_context::EvalContext;
use kmd_engine::rule_engine::{RuleId, RuleResult};
use kmd_engine::types::{Beskaeftigelsesstatus, Husstandstype};

#[test]
fn test_compact_borger_result_layout() {
    let size = std::mem::size_of::<CompactBorgerResult<f64>>();
    assert!(size <= 32, "CompactBorgerResult is {} bytes — too large (max 32)", size);
}

fn result(rows: Vec<([f64; 3], [bool; 3])>) -> BatchResult<f64> {
    let borger_results: Vec<CompactBorgerResult<f64>> =
        rows.into_iter().map(|(amounts, eligible)| CompactBorgerResult { amounts, eligible }).collect();
    let count = borger_results.len();
    BatchResult { per_rule: Vec::new(), borger_results, count }
}

#[test]
fn compact_row_reads_its_slots() {
    let r = CompactBorgerResult { amounts: [1.0, 2.0, 3.0], eligible: [true, false, true] };
    assert_eq!(r.amount(RuleId::Boligstoette), 2.0);
    assert!(!r.is_eligible(RuleId::Boligstoette));
    assert!(r.is_eligible(RuleId::BoerneYdelse));
    let rr = r.rule_result(RuleId::BoerneYdelse);
    assert_eq!(rr, RuleResult { rule_id: RuleId::BoerneYdelse, amount: 3.0, eligible: true });
    let mut r2 = r;
    r2.set_result(RuleResult { rule_id: RuleId::Kontanthjaelp, amount: 9.0, eligible: false });
    assert_eq!(r2.amounts, [9.0, 2.0, 3.0]);
    assert_eq!(r2.eligible, [false, false, true]);
}

#[test]
fn row_from_context_fills_missing_rules_with_zero() {
    let mut ctx: EvalContext<f64> = EvalContext::new();
    ctx.insert(RuleResult { rule_id: RuleId::Boligstoette, amount: 1234.5, eligible: true });
    let row = CompactBorgerResult::from_context(&ctx, 0.0);
    assert_eq!(row.amounts, [0.0, 1234.5, 0.0]);
    assert_eq!(row.eligible, [false, true, false]);
}

#[test]
fn eligible_counts() {
    let r = result(vec![
        ([1.0, 0.0, 0.0], [true, false, false]),
        ([1.0, 5.0, 0.0], [true, true, false]),
        ([0.0, 0.0, 0.0], [false, false, true]),
    ]);
    assert_eq!(count_eligible(&r.borger_results, RuleId::Kontanthjaelp), 2);
    assert_eq!(count_eligible(&r.borger_results, RuleId::Boligstoette), 1);
    assert_eq!(count_eligible(&r.borger_results, RuleId::BoerneYdelse), 1);
    assert_eq!(count_eligible_rows(&r, &[1, 2], RuleId::Kontanthjaelp), 1);
    assert_eq!(count_eligible_rows(&r, &[], RuleId::Kontanthjaelp), 0);
}

#[test]
fn segments_partition_the_citizens() {
    let r = result(vec![
        ([1.0, 0.0, 0.0], [true, false, false]),
        ([2.0, 0.0, 0.0], [false, false, false]),
        ([3.0, 0.0, 0.0], [true, false, false]),
        ([4.0, 0.0, 0.0], [true, false, false]),
    ]);
    let keys = vec![SegmentKey::Kommune(7), SegmentKey::Kommune(3), SegmentKey::Kommune(7), SegmentKey::Kommune(9)];
    let groups = group_by_segment(&r, &keys, RuleId::Kontanthjaelp);
    assert_eq!(groups.len(), 3);
    assert_eq!(groups[0].key, SegmentKey::Kommune(7));
    assert_eq!(groups[0].rows, vec![0, 2]);
    assert_eq!(groups[0].eligible_count, 2);
    assert_eq!(groups[0].borger_count, 2);
    assert_eq!(groups[1].key, SegmentKey::Kommune(3));
    assert_eq!(groups[1].rows, vec![1]);
    assert_eq!(groups[1].eligible_count, 0);
    assert_eq!(groups[2].rows, vec![3]);
    assert_eq!(groups.iter().map(|g| g.borger_count).sum::<usize>(), 4);

    let ht_keys = vec![
        SegmentKey::Husstandstype(Husstandstype::Enlig),
        SegmentKey::Husstandstype(Husstandstype::Enlig),
        SegmentKey::Husstandstype(Husstandstype::ParMedBoern),
        SegmentKey::Husstandstype(Husstandstype::Enlig),
    ];
    let ht = group_by_segment(&r, &ht_keys, RuleId::Kontanthjaelp);
    assert_eq!(ht.len(), 2);
    assert_eq!(ht[0].rows, vec![0, 1, 3]);
}

#[test]
fn ranking_takes_largest_keys_first() {
    let keys = vec![5u64, 9, 1, 9, 7, 0];
    assert_eq!(rank_by_key(&keys, 3), vec![1, 3, 4]);
    assert_eq!(rank_by_key(&keys, 0), Vec::<usize>::new());
    assert_eq!(rank_by_key(&keys, 10), vec![1, 3, 4, 0, 2, 5]);
    assert_eq!(rank_by_key(&[], 4), Vec::<usize>::new());
}

fn store(ids: Vec<u32>) -> BorgerStore<f64> {
    let n = ids.len();
    BorgerStore {
        borger_id: ids,
        alder: vec![40; n],
        husstandstype: vec![Husstandstype::Enlig; n],
        bruttoindkomst: vec![300_000.0; n],
        husleje: vec![6_000.0; n],
        boligareal: vec![60; n],
        antal_boern: vec![0; n],
        boern_aldre: vec![Vec::new(); n],
        beskaeftigelsesstatus: vec![Beskaeftigelsesstatus::Ledig; n],
        kommune_id: vec![1; n],
    }
}

#[test]
fn top_n_entries_carry_id_and_amount() {
    let s = store(vec![11, 12, 13, 14]);
    let r = result(vec![
        ([100.0, 0.0, 0.0], [true, false, false]),
        ([300.0, 0.0, 0.0], [true, false, false]),
        ([200.0, 0.0, 0.0], [true, false, false]),
        ([50.0, 0.0, 0.0], [true, false, false]),
    ]);
    let keys: Vec<u64> = r.borger_results.iter().map(|c| c.amounts[0].to_bits()).collect();
    let top = top_n(&s, &r, &keys, RuleId::Kontanthjaelp, 2);
    assert_eq!(top.len(), 2);
    assert_eq!(top[0].borger_index, 1);
    assert_eq!(top[0].borger_id, 12);
    assert_eq!(top[0].amount, 300.0);
    assert_eq!(top[1].borger_id, 13);
    assert_eq!(top[1].amount, 200.0);
    assert_eq!(top[1].rule_id, RuleId::Kontanthjaelp);
}

#[test]
fn histogram_bucket_count_is_clamped() {
    assert_eq!(histogram_bucket_count(0), 2);
    assert_eq!(histogram_bucket_count(1), 2);
    assert_eq!(histogram_bucket_count(20), 20);
    assert_eq!(histogram_bucket_count(100), 100);
    assert_eq!(histogram_bucket_count(1000), 100);
}

#[test]
fn bucket_counts_put_overflow_in_last_bucket() {
    let counts = bucket_counts(&[0, 1, 1, 3, 4, 20], 4);
    assert_eq!(counts, vec![1, 2, 0, 3]);
    assert_eq!(counts.iter().sum::<usize>(), 6);
    assert_eq!(bucket_counts(&[], 2), vec![0, 0]);
}

// A stand-in rule engine: the cash benefit is 10 per citizen index, housing
// support adds 1 to the cash benefit it reads from the context, and the
// child benefit is only eligible for even citizens.
fn toy_evaluate(i: usize, rule_id: RuleId, ctx: &EvalContext<u32>) -> RuleResult<u32> {
    match rule_id {
        RuleId::Kontanthjaelp => RuleResult { rule_id, amount: 10 * i as u32, eligible: true },
        RuleId::Boligstoette => {
            let kh = ctx.get(&RuleId::Kontanthjaelp).map(|r| r.amount).unwrap_or(1000);
            RuleResult { rule_id, amount: kh + 1, eligible: true }
        }
        RuleId::BoerneYdelse => RuleResult { rule_id, amount: 7, eligible: i % 2 == 0 },
    }
}

#[test]
fn evaluate_rows_runs_rules_in_dependency_order() {
    let graph = DependencyGraph::build(&standard_rules()).unwrap();
    let rows = evaluate_rows(3, &graph, 0u32, &toy_evaluate);
    assert_eq!(rows.len(), 3);
    assert_eq!(rows[0].amounts, [0, 1, 7]);
    assert_eq!(rows[1].amounts, [10, 11, 7]);
    assert_eq!(rows[1].eligible, [true, true, false]);
    assert_eq!(rows[2].amounts, [20, 21, 7]);
    let one = evaluate_row(2, &graph, 0u32, &toy_evaluate);
    assert_eq!(one.amounts, rows[2].amounts);
    assert_eq!(one.eligible, rows[2].eligible);
}

#[test]
fn reevaluate_rows_keeps_clean_rules_from_the_baseline() {
    let graph = DependencyGraph::build(&standard_rules()).unwrap();
    let baseline = vec![
        CompactBorgerResult { amounts: [100u32, 200, 300], eligible: [true, false, true] },
        CompactBorgerResult { amounts: [400u32, 500, 600], eligible: [false, false, false] },
    ];
    let mut dirty = RuleSet::new();
    dirty.insert(RuleId::Boligstoette);
    let rows = reevaluate_rows(2, &baseline, &graph, &dirty, &toy_evaluate);
    assert_eq!(rows.len(), 2);
    // Housing support is recomputed from the baseline cash benefit.
    assert_eq!(rows[0].amounts, [100, 101, 300]);
    assert_eq!(rows[0].eligible, [true, true, true]);
    assert_eq!(rows[1].amounts, [400, 401, 600]);
    assert_eq!(rows[1].eligible, [false, true, false]);

    let clean = RuleSet::new();
    let same = reevaluate_rows(2, &baseline, &graph, &clean, &toy_evaluate);
    assert_eq!(same[1].amounts, baseline[1].amounts);
    assert_eq!(same[1].eligible, baseline[1].eligible);

    let row = reevaluate_row(0, &baseline[0], &graph, &dirty, &toy_evaluate);
    assert_eq!(row.amounts, rows[0].amounts);
}

// The same stand-in with a raised cash benefit.
fn toy_evaluate_raised(i: usize, rule_id: RuleId, ctx: &EvalContext<u32>) -> RuleResult<u32> {
    match rule_id {
        RuleId::Kontanthjaelp => RuleResult { rule_id, amount: 10 * i as u32 + 5, eligible: true },
        _ => toy_evaluate(i, rule_id, ctx),
    }
}

#[test]
fn reevaluating_the_dirty_rules_matches_a_full_evaluation() {
    let graph = DependencyGraph::build(&standard_rules()).unwrap();
    let baseline = evaluate_rows(4, &graph, 0u32, &toy_evaluate);
    let mut dirty = RuleSet::new();
    dirty.insert(RuleId::Kontanthjaelp);
    dirty.insert(RuleId::Boligstoette);
    let incremental = reevaluate_rows(4, &baseline, &graph, &dirty, &toy_evaluate_raised);
    let full = evaluate_rows(4, &graph, 0u32, &toy_evaluate_raised);
    for i in 0..4 {
        assert_eq!(incremental[i].amounts, full[i].amounts);
        assert_eq!(incremental[i].eligible, full[i].eligible);
    }
    assert_eq!(incremental[3].amounts, [35, 36, 7]);
}

#[test]
fn ranking_prefers_earlier_rows_among_equal_keys() {
    assert_eq!(rank_by_key(&[5, 7, 5, 7, 1], 3), vec![1, 3, 0]);
    assert_eq!(rank_by_key(&[2, 2, 2], 2), vec![0, 1]);
    assert_eq!(rank_by_key(&[4, 9], 0), Vec::<usize>::new());
    assert_eq!(rank_by_key(&[4, 9], 5), vec![1, 0]);
}
