use kmd_engine::dependency_graph::DependencyGraph;
use kmd_engine::error::EngineError;
use kmd_engine::rule_engine::{rule_at, rule_index, rule_name, rule_variant_name, RuleId, RuleNode, RuleResult};
use kmd_engine::rules::boerne_ydelse::BoerneYdelse;
use kmd_engine::rules::boligstoette::Boligstoette;
use kmd_engine::rules::kontanthjaelp::Kontanthjaelp;
use kmd_engine::rules::standard_rules;

fn all_rules() -> Vec<RuleNode> {
    vec![Kontanthjaelp.node(), Boligstoette.node(), BoerneYdelse.node()]
}

#[test]
fn test_dependency_order() {
    let rules = all_rules();
    let graph = DependencyGraph::build(&rules).expect("should build without cycles");

    let order = graph.evaluation_order();

    let kh_pos = order.iter().position(|&id| id == RuleId::Kontanthjaelp).unwrap();
    let bs_pos = order.iter().position(|&id| id == RuleId::Boligstoette).unwrap();

    assert!(
        kh_pos < bs_pos,
        "Kontanthjaelp (pos {}) must come before Boligstoette (pos {})",
        kh_pos,
        bs_pos
    );
}

#[test]
fn test_circular_dependency_result() {
    let circular = RuleNode { id: RuleId::Kontanthjaelp, dependencies: vec![RuleId::Boligstoette] };
    let bs = Boligstoette.node();
    let rules = vec![circular, bs];

    let result = DependencyGraph::build(&rules);

    assert!(result.is_err(), "should detect cycle");
    match result.unwrap_err() {
        EngineError::CyclicDependency { cycle } => {
            assert!(!cycle.is_empty(), "cycle description should not be empty");
        }
        other => panic!("expected CyclicDependency, got: {:?}", other),
    }
}

#[test]
fn test_no_explanations_in_batch() {
    let size = std::mem::size_of::<RuleResult<f64>>();
    assert!(
        size <= 24,
        "RuleResult too large: {} bytes (should be <= 24). No explanation strings in batch.",
        size
    );

    let result = RuleResult { rule_id: RuleId::Kontanthjaelp, amount: 12_550.0, eligible: true };
    assert_eq!(result.rule_id, RuleId::Kontanthjaelp);
    assert_eq!(result.amount, 12_550.0);
    assert!(result.eligible);
}

#[test]
fn standard_order_is_complete_and_exact() {
    let graph = DependencyGraph::build(&standard_rules()).unwrap();
    assert_eq!(
        graph.evaluation_order(),
        &[RuleId::Kontanthjaelp, RuleId::Boligstoette, RuleId::BoerneYdelse]
    );
}

#[test]
fn order_puts_dependency_first_whatever_the_input_order() {
    let rules = vec![BoerneYdelse.node(), Boligstoette.node(), Kontanthjaelp.node()];
    let graph = DependencyGraph::build(&rules).unwrap();
    let order = graph.evaluation_order();
    assert_eq!(order.len(), 3);
    let kh = order.iter().position(|&id| id == RuleId::Kontanthjaelp).unwrap();
    let bs = order.iter().position(|&id| id == RuleId::Boligstoette).unwrap();
    assert!(kh < bs);
    assert!(order.contains(&RuleId::BoerneYdelse));
}

#[test]
fn cycle_message_names_the_unordered_rules() {
    let rules = vec![
        RuleNode { id: RuleId::Kontanthjaelp, dependencies: vec![RuleId::Boligstoette] },
        Boligstoette.node(),
        BoerneYdelse.node(),
    ];
    match DependencyGraph::build(&rules) {
        Err(EngineError::CyclicDependency { cycle }) => assert_eq!(cycle, "Kontanthjaelp → Boligstoette"),
        other => panic!("expected a cycle, got {:?}", other.map(|g| g.evaluation_order().to_vec())),
    }
}

#[test]
fn missing_dependency_is_reported_as_unorderable() {
    let rules = vec![Boligstoette.node()];
    match DependencyGraph::build(&rules) {
        Err(EngineError::CyclicDependency { cycle }) => assert_eq!(cycle, "Boligstoette"),
        other => panic!("expected an error, got {:?}", other.map(|g| g.evaluation_order().to_vec())),
    }
}

#[test]
fn self_dependency_is_a_cycle() {
    let rules = vec![RuleNode { id: RuleId::BoerneYdelse, dependencies: vec![RuleId::BoerneYdelse] }, Kontanthjaelp.node()];
    match DependencyGraph::build(&rules) {
        Err(EngineError::CyclicDependency { cycle }) => assert_eq!(cycle, "BoerneYdelse"),
        other => panic!("expected an error, got {:?}", other.map(|g| g.evaluation_order().to_vec())),
    }
}

#[test]
fn empty_rule_set_orders_nothing() {
    let graph = DependencyGraph::build(&[]).unwrap();
    assert!(graph.evaluation_order().is_empty());
}

#[test]
fn duplicate_rules_appear_once() {
    let rules = vec![Kontanthjaelp.node(), Kontanthjaelp.node(), Boligstoette.node()];
    let graph = DependencyGraph::build(&rules).unwrap();
    assert_eq!(graph.evaluation_order(), &[RuleId::Kontanthjaelp, RuleId::Boligstoette]);
}

#[test]
fn rule_slots_round_trip() {
    for id in [RuleId::Kontanthjaelp, RuleId::Boligstoette, RuleId::BoerneYdelse] {
        assert_eq!(rule_at(rule_index(id)), id);
    }
    assert_eq!(rule_index(RuleId::Boligstoette), 1);
    assert_eq!(rule_name(RuleId::BoerneYdelse), "boerneydelse");
    assert_eq!(rule_variant_name(RuleId::Kontanthjaelp), "Kontanthjaelp");
}

#[test]
fn rule_declarations() {
    assert_eq!(Kontanthjaelp.id(), RuleId::Kontanthjaelp);
    assert!(Kontanthjaelp.dependencies().is_empty());
    assert_eq!(Boligstoette.dependencies(), vec![RuleId::Kontanthjaelp]);
    assert!(BoerneYdelse.dependencies().is_empty());
}
