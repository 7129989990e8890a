use vstd::prelude::*;

verus! {

/// Identifier of one of the three welfare rules.
#[derive(Debug, Clone, Copy, PartialEq, Eq, Hash, Structural)]
pub enum RuleId {
    Kontanthjaelp,
    Boligstoette,
    BoerneYdelse,
}

/// Number of rules known to the engine.
pub const RULE_COUNT: usize = 3;

/// Fixed slot of each rule in per-citizen result arrays.
pub open spec fn rule_slot(id: RuleId) -> int {
    match id {
        RuleId::Kontanthjaelp => 0,
        RuleId::Boligstoette => 1,
        RuleId::BoerneYdelse => 2,
    }
}

/// The rule stored at a given slot.
pub open spec fn rule_of_slot(k: int) -> RuleId {
    if k == 0 {
        RuleId::Kontanthjaelp
    } else if k == 1 {
        RuleId::Boligstoette
    } else {
        RuleId::BoerneYdelse
    }
}

/// Machine name of a rule, as used on the bridge and in explanations.
pub open spec fn rule_label(id: RuleId) -> Seq<char> {
    match id {
        RuleId::Kontanthjaelp => "kontanthjaelp"@,
        RuleId::Boligstoette => "boligstoette"@,
        RuleId::BoerneYdelse => "boerneydelse"@,
    }
}

/// The name of a rule as its variant is spelled.
pub open spec fn rule_variant_label(id: RuleId) -> Seq<char> {
    match id {
        RuleId::Kontanthjaelp => "Kontanthjaelp"@,
        RuleId::Boligstoette => "Boligstoette"@,
        RuleId::BoerneYdelse => "BoerneYdelse"@,
    }
}

/// Slots and rules correspond one to one.
pub proof fn lemma_rule_slot_bijection()
    ensures
        forall|id: RuleId| #[trigger] rule_of_slot(rule_slot(id)) == id,
        forall|id: RuleId| 0 <= #[trigger] rule_slot(id) < 3,
        forall|k: int| 0 <= k < 3 ==> #[trigger] rule_slot(rule_of_slot(k)) == k,
{
}

pub fn rule_index(id: RuleId) -> (k: usize)
    ensures
        k == rule_slot(id),
        k < RULE_COUNT,
{
    match id {
        RuleId::Kontanthjaelp => 0,
        RuleId::Boligstoette => 1,
        RuleId::BoerneYdelse => 2,
    }
}

/// Inverse of `rule_index`.
pub fn rule_at(k: usize) -> (id: RuleId)
    requires
        k < RULE_COUNT,
    ensures
        rule_slot(id) == k,
        id == rule_of_slot(k as int),
{
    if k == 0 {
        RuleId::Kontanthjaelp
    } else if k == 1 {
        RuleId::Boligstoette
    } else {
        RuleId::BoerneYdelse
    }
}

pub fn rule_name(id: RuleId) -> (s: &'static str)
    ensures
        s@ == rule_label(id),
{
    match id {
        RuleId::Kontanthjaelp => "kontanthjaelp",
        RuleId::Boligstoette => "boligstoette",
        RuleId::BoerneYdelse => "boerneydelse",
    }
}

/// The variant name of a rule (its `Debug` spelling).
pub fn rule_variant_name(id: RuleId) -> (s: &'static str)
    ensures
        s@ == rule_variant_label(id),
{
    match id {
        RuleId::Kontanthjaelp => "Kontanthjaelp",
        RuleId::Boligstoette => "Boligstoette",
        RuleId::BoerneYdelse => "BoerneYdelse",
    }
}

/// Outcome of one rule for one citizen. `A` is the amount type.
#[derive(Debug, Clone, Copy, PartialEq)]
pub struct RuleResult<A> {
    pub rule_id: RuleId,
    pub amount: A,
    pub eligible: bool,
}

/// A rule as the dependency graph sees it: its id and the rules it reads.
#[derive(Debug, Clone)]
pub struct RuleNode {
    pub id: RuleId,
    pub dependencies: Vec<RuleId>,
}

/// The rules that a rule reads, as the three standard rules declare them.
pub open spec fn standard_dependencies(id: RuleId) -> Seq<RuleId> {
    match id {
        RuleId::Boligstoette => seq![RuleId::Kontanthjaelp],
        _ => Seq::empty(),
    }
}

} // verus!
