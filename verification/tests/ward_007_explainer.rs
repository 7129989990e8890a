use kmd_engine::eval_context::EvalContext;
use kmd_engine::rule_engine::{RuleId, RuleResult};
use kmd_engine::rules::boerne_ydelse::{boerne_age_tier, count_children_by_tier};
use kmd_engine::rules::kontanthjaelp::{is_single, kontanthjaelp_status_eligible};
use kmd_engine::types::{beskaeftigelse_name, capitalize, husstandstype_name, Beskaeftigelsesstatus, Husstandstype};

#[test]
fn household_and_status_names() {
    assert_eq!(husstandstype_name(Husstandstype::Enlig), "enlig");
    assert_eq!(husstandstype_name(Husstandstype::ParUdenBoern), "par_uden_boern");
    assert_eq!(husstandstype_name(Husstandstype::ParMedBoern), "par_med_boern");
    assert_eq!(husstandstype_name(Husstandstype::EnligForsoerger), "enlig_forsoerger");
    assert_eq!(beskaeftigelse_name(Beskaeftigelsesstatus::Fuldtid), "fuldtid");
    assert_eq!(beskaeftigelse_name(Beskaeftigelsesstatus::Deltid), "deltid");
    assert_eq!(beskaeftigelse_name(Beskaeftigelsesstatus::Ledig), "ledig");
    assert_eq!(beskaeftigelse_name(Beskaeftigelsesstatus::Aktivitetsparat), "aktivitetsparat");
    assert_eq!(beskaeftigelse_name(Beskaeftigelsesstatus::Sygemeldt), "sygemeldt");
}

#[test]
fn capitalize_upper_cases_the_first_character() {
    assert_eq!(capitalize("enlig"), "Enlig");
    assert_eq!(capitalize("par"), "Par");
    assert_eq!(capitalize(""), "");
    assert_eq!(capitalize("æble"), "Æble");
    assert_eq!(capitalize("ß"), "SS");
    assert_eq!(capitalize("X"), "X");
}

#[test]
fn single_households_and_cash_benefit_status() {
    assert!(is_single(Husstandstype::Enlig));
    assert!(is_single(Husstandstype::EnligForsoerger));
    assert!(!is_single(Husstandstype::ParUdenBoern));
    assert!(!is_single(Husstandstype::ParMedBoern));
    assert!(kontanthjaelp_status_eligible(Beskaeftigelsesstatus::Ledig));
    assert!(kontanthjaelp_status_eligible(Beskaeftigelsesstatus::Aktivitetsparat));
    assert!(!kontanthjaelp_status_eligible(Beskaeftigelsesstatus::Fuldtid));
    assert!(!kontanthjaelp_status_eligible(Beskaeftigelsesstatus::Deltid));
    assert!(!kontanthjaelp_status_eligible(Beskaeftigelsesstatus::Sygemeldt));
}

#[test]
fn child_age_tiers() {
    assert_eq!(boerne_age_tier(0), Some(0));
    assert_eq!(boerne_age_tier(2), Some(0));
    assert_eq!(boerne_age_tier(3), Some(1));
    assert_eq!(boerne_age_tier(6), Some(1));
    assert_eq!(boerne_age_tier(7), Some(2));
    assert_eq!(boerne_age_tier(14), Some(2));
    assert_eq!(boerne_age_tier(15), Some(3));
    assert_eq!(boerne_age_tier(17), Some(3));
    assert_eq!(boerne_age_tier(18), None);
    assert_eq!(count_children_by_tier(&[1, 8, 16, 2, 30, 5]), [2, 1, 1, 1]);
    assert_eq!(count_children_by_tier(&[]), [0, 0, 0, 0]);
}

#[test]
fn test_context_accumulates() {
    let mut ctx: EvalContext<f64> = EvalContext::new();
    assert!(ctx.results().is_empty());
    ctx.insert(RuleResult { rule_id: RuleId::Kontanthjaelp, amount: 12_550.0, eligible: true });
    ctx.insert(RuleResult { rule_id: RuleId::Boligstoette, amount: 1_200.0, eligible: true });
    ctx.insert(RuleResult { rule_id: RuleId::BoerneYdelse, amount: 0.0, eligible: false });
    assert_eq!(ctx.results().len(), 3, "should have results for all 3 rules");
    assert_eq!(ctx.get(&RuleId::Kontanthjaelp).unwrap().amount, 12_550.0);
    assert!(ctx.get(&RuleId::Boligstoette).is_some());
    assert!(!ctx.get(&RuleId::BoerneYdelse).unwrap().eligible);
}

#[test]
fn context_overwrites_and_clears() {
    let mut ctx: EvalContext<f64> = EvalContext::new();
    ctx.insert(RuleResult { rule_id: RuleId::Boligstoette, amount: 1.0, eligible: true });
    ctx.insert(RuleResult { rule_id: RuleId::Boligstoette, amount: 2.0, eligible: false });
    assert_eq!(ctx.results(), vec![RuleResult { rule_id: RuleId::Boligstoette, amount: 2.0, eligible: false }]);
    assert!(ctx.get(&RuleId::Kontanthjaelp).is_none());
    ctx.clear();
    assert!(ctx.get(&RuleId::Boligstoette).is_none());
    assert!(ctx.results().is_empty());
}
