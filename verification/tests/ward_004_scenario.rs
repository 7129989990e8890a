use kmd_engine::batch::evaluator::count_eligible;
use kmd_engine::batch::types::{BatchResult, CompactBorgerResult};
use kmd_engine::dependency_graph::DependencyGraph;
use kmd_engine::eval_context::EvalContext;
use kmd_engine::rule_engine::{RuleId, RuleNode, RuleResult};
use kmd_engine::rules::standard_rules;
use kmd_engine::scenario::diff::{affected_kommuner, affected_per_kommune, count_affected, eligibility_changes};
use kmd_engine::scenario::incremental::{compute_dirty_set, evaluation_plan, propagate_downstream, RuleSet};
use kmd_engine::scenario::param_mapping::{parse_param_id, ParamId, ParamRuleMapping};

fn setup() -> (Vec<RuleNode>, DependencyGraph) {
    let rules = standard_rules();
    let graph = DependencyGraph::build(&rules).unwrap();
    (rules, graph)
}

#[test]
fn test_param_rule_mapping() {
    let mapping = ParamRuleMapping::new();

    assert_eq!(mapping.affected_roots(ParamId::KontanthjaelpBasisEnlig), &[RuleId::Kontanthjaelp]);
    assert_eq!(mapping.affected_roots(ParamId::KontanthjaelpBasisPar), &[RuleId::Kontanthjaelp]);
    assert_eq!(mapping.affected_roots(ParamId::Forsoergertillaeg), &[RuleId::Kontanthjaelp]);
    assert_eq!(mapping.affected_roots(ParamId::BoligstoetteGraense), &[RuleId::Boligstoette]);
    assert_eq!(mapping.affected_roots(ParamId::BoerneYdelseAftrapning), &[RuleId::BoerneYdelse]);
}

#[test]
fn test_dirty_propagation() {
    let (rules, graph) = setup();
    let mapping = ParamRuleMapping::new();

    let overrides = vec![(ParamId::KontanthjaelpBasisEnlig, 13_050.0)];
    let dirty = compute_dirty_set(&overrides, &mapping, &graph, &rules);

    assert!(dirty.contains(&RuleId::Kontanthjaelp), "kontanthjaelp should be dirty");
    assert!(dirty.contains(&RuleId::Boligstoette), "boligstoette should be dirty (downstream)");
    assert!(!dirty.contains(&RuleId::BoerneYdelse), "boerneydelse should NOT be dirty");
}

#[test]
fn base_rate_slider_maps_to_cash_benefit() {
    let mapping = ParamRuleMapping::default();
    assert_eq!(mapping.affected_roots(ParamId::KontanthjaelpBasis), &[RuleId::Kontanthjaelp]);
}

#[test]
fn housing_ceiling_dirties_only_housing_support() {
    let (rules, graph) = setup();
    let mapping = ParamRuleMapping::new();
    let dirty = compute_dirty_set(&[(ParamId::BoligstoetteGraense, 400_000.0)], &mapping, &graph, &rules);
    assert!(!dirty.contains(&RuleId::Kontanthjaelp));
    assert!(dirty.contains(&RuleId::Boligstoette));
    assert!(!dirty.contains(&RuleId::BoerneYdelse));
}

#[test]
fn several_overrides_union_their_rules() {
    let (rules, graph) = setup();
    let mapping = ParamRuleMapping::new();
    let overrides = vec![(ParamId::BoerneYdelseAftrapning, 900_000.0), (ParamId::Forsoergertillaeg, 2_000.0)];
    let dirty = compute_dirty_set(&overrides, &mapping, &graph, &rules);
    assert!(dirty.contains(&RuleId::Kontanthjaelp));
    assert!(dirty.contains(&RuleId::Boligstoette));
    assert!(dirty.contains(&RuleId::BoerneYdelse));
}

#[test]
fn no_overrides_dirty_nothing() {
    let (rules, graph) = setup();
    let mapping = ParamRuleMapping::new();
    let overrides: Vec<(ParamId, f64)> = Vec::new();
    let dirty = compute_dirty_set(&overrides, &mapping, &graph, &rules);
    for id in [RuleId::Kontanthjaelp, RuleId::Boligstoette, RuleId::BoerneYdelse] {
        assert!(!dirty.contains(&id));
    }
}

#[test]
fn propagation_follows_chains() {
    let rules = vec![
        RuleNode { id: RuleId::BoerneYdelse, dependencies: vec![RuleId::Boligstoette] },
        RuleNode { id: RuleId::Boligstoette, dependencies: vec![RuleId::Kontanthjaelp] },
        RuleNode { id: RuleId::Kontanthjaelp, dependencies: vec![] },
    ];
    let mut dirty = RuleSet::new();
    dirty.insert(RuleId::Kontanthjaelp);
    propagate_downstream(&mut dirty, &rules);
    assert!(dirty.contains(&RuleId::Boligstoette));
    assert!(dirty.contains(&RuleId::BoerneYdelse));
}

#[test]
fn param_codes_decode() {
    assert_eq!(parse_param_id(0), Some(ParamId::KontanthjaelpBasis));
    assert_eq!(parse_param_id(1), Some(ParamId::Forsoergertillaeg));
    assert_eq!(parse_param_id(2), Some(ParamId::BoligstoetteGraense));
    assert_eq!(parse_param_id(3), Some(ParamId::BoerneYdelseAftrapning));
    assert_eq!(parse_param_id(4), None);
    assert_eq!(parse_param_id(255), None);
}

#[test]
fn plan_marks_dirty_rules_in_order() {
    let (_, graph) = setup();
    let mut dirty = RuleSet::new();
    dirty.insert(RuleId::Boligstoette);
    let plan = evaluation_plan(graph.evaluation_order(), &dirty);
    assert_eq!(plan, vec![(0, false), (1, true), (2, false)]);
}

#[test]
fn merge_keeps_clean_rules_from_baseline() {
    let base = CompactBorgerResult { amounts: [100.0, 50.0, 10.0], eligible: [true, true, true] };
    let mut fresh: EvalContext<f64> = EvalContext::new();
    fresh.insert(RuleResult { rule_id: RuleId::Kontanthjaelp, amount: 600.0, eligible: true });
    fresh.insert(RuleResult { rule_id: RuleId::Boligstoette, amount: 0.0, eligible: false });
    fresh.insert(RuleResult { rule_id: RuleId::BoerneYdelse, amount: 999.0, eligible: false });
    let mut dirty = RuleSet::new();
    dirty.insert(RuleId::Kontanthjaelp);
    dirty.insert(RuleId::Boligstoette);
    let merged = base.merge_reevaluated(&fresh, &dirty);
    assert_eq!(merged.amounts, [600.0, 0.0, 10.0]);
    assert_eq!(merged.eligible, [true, false, true]);
}

fn row(elig: [bool; 3]) -> CompactBorgerResult<f64> {
    CompactBorgerResult { amounts: [0.0; 3], eligible: elig }
}

fn batch(rows: Vec<CompactBorgerResult<f64>>) -> BatchResult<f64> {
    let count = rows.len();
    BatchResult { per_rule: Vec::new(), borger_results: rows, count }
}

#[test]
fn eligibility_changes_count_both_ways() {
    let base = batch(vec![row([false, true, false]), row([true, true, false]), row([false, false, false])]);
    let scen = batch(vec![row([true, true, false]), row([false, false, false]), row([true, false, false])]);
    assert_eq!(eligibility_changes(&base, &scen, RuleId::Kontanthjaelp), (2, 1));
    assert_eq!(eligibility_changes(&base, &scen, RuleId::Boligstoette), (0, 1));
    assert_eq!(eligibility_changes(&base, &scen, RuleId::BoerneYdelse), (0, 0));
}

#[test]
fn affected_counts_per_kommune_add_up() {
    let kommuner = vec![1u8, 2, 1, 98, 2, 1];
    let affected = vec![true, false, true, true, true, false];
    let counts = affected_per_kommune(&kommuner, &affected);
    assert_eq!(counts[1], 2);
    assert_eq!(counts[2], 1);
    assert_eq!(counts[98], 1);
    assert_eq!(counts[0], 0);
    assert_eq!(counts.iter().sum::<usize>(), count_affected(&affected));
    assert_eq!(count_affected(&affected), 4);
    assert_eq!(affected_kommuner(&counts), vec![1, 2, 98]);
}

#[test]
fn eligibility_change_is_gains_less_losses() {
    let base = batch(vec![row([false, true, false]), row([true, true, false]), row([false, false, true])]);
    let scen = batch(vec![row([true, true, false]), row([false, false, true]), row([true, false, true])]);
    for rid in [RuleId::Kontanthjaelp, RuleId::Boligstoette, RuleId::BoerneYdelse] {
        let (gained, lost) = eligibility_changes(&base, &scen, rid);
        let before = count_eligible(&base.borger_results, rid);
        let after = count_eligible(&scen.borger_results, rid);
        assert_eq!(after + lost, before + gained);
    }
}
