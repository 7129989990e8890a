use vstd::prelude::*;

use crate::rule_engine::{standard_dependencies, RuleId, RuleNode};
use crate::types::{Beskaeftigelsesstatus, Husstandstype};

verus! {

/// Cash benefit: a root rule.
pub struct Kontanthjaelp;

impl Kontanthjaelp {
    pub fn id(&self) -> (r: RuleId)
        ensures
            r == RuleId::Kontanthjaelp,
    {
        RuleId::Kontanthjaelp
    }

    pub fn dependencies(&self) -> (r: Vec<RuleId>)
        ensures
            r@ == standard_dependencies(RuleId::Kontanthjaelp),
    {
        Vec::new()
    }

    pub fn node(&self) -> (r: RuleNode)
        ensures
            r.id == RuleId::Kontanthjaelp,
            r.dependencies@ == standard_dependencies(RuleId::Kontanthjaelp),
    {
        RuleNode { id: self.id(), dependencies: self.dependencies() }
    }
}

/// Single-adult households: the single rates and ceilings apply.
pub open spec fn single_household(h: Husstandstype) -> bool {
    h == Husstandstype::Enlig || h == Husstandstype::EnligForsoerger
}

pub fn is_single(h: Husstandstype) -> (b: bool)
    ensures
        b == single_household(h),
{
    match h {
        Husstandstype::Enlig | Husstandstype::EnligForsoerger => true,
        _ => false,
    }
}

/// Statuses that qualify for the cash benefit: unemployed or ready for activation.
pub open spec fn cash_benefit_status(b: Beskaeftigelsesstatus) -> bool {
    b == Beskaeftigelsesstatus::Ledig || b == Beskaeftigelsesstatus::Aktivitetsparat
}

pub fn kontanthjaelp_status_eligible(b: Beskaeftigelsesstatus) -> (r: bool)
    ensures
        r == cash_benefit_status(b),
{
    match b {
        Beskaeftigelsesstatus::Ledig | Beskaeftigelsesstatus::Aktivitetsparat => true,
        _ => false,
    }
}

} // verus!
