use vstd::prelude::*;

use crate::rule_engine::{standard_dependencies, RuleId, RuleNode};

verus! {

/// Housing support: reads the cash benefit.
pub struct Boligstoette;

impl Boligstoette {
    pub fn id(&self) -> (r: RuleId)
        ensures
            r == RuleId::Boligstoette,
    {
        RuleId::Boligstoette
    }

    pub fn dependencies(&self) -> (r: Vec<RuleId>)
        ensures
            r@ == standard_dependencies(RuleId::Boligstoette),
    {
        let mut v = Vec::new();
        v.push(RuleId::Kontanthjaelp);
        v
    }

    pub fn node(&self) -> (r: RuleNode)
        ensures
            r.id == RuleId::Boligstoette,
            r.dependencies@ == standard_dependencies(RuleId::Boligstoette),
    {
        RuleNode { id: self.id(), dependencies: self.dependencies() }
    }
}

} // verus!
