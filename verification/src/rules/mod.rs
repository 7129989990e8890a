pub mod boerne_ydelse;
pub mod boligstoette;
pub mod kontanthjaelp;

use vstd::prelude::*;

use crate::rule_engine::{standard_dependencies, RuleId, RuleNode};
use crate::rules::boerne_ydelse::BoerneYdelse;
use crate::rules::boligstoette::Boligstoette;
use crate::rules::kontanthjaelp::Kontanthjaelp;

verus! {

/// The three standard rules in their declaration order.
pub fn standard_rules() -> (r: Vec<RuleNode>)
    ensures
        r@.len() == 3,
        r@[0].id == RuleId::Kontanthjaelp,
        r@[1].id == RuleId::Boligstoette,
        r@[2].id == RuleId::BoerneYdelse,
        forall|i: int| 0 <= i < 3 ==> (#[trigger] r@[i]).dependencies@ == standard_dependencies(r@[i].id),
{
    let mut v = Vec::new();
    v.push(Kontanthjaelp.node());
    v.push(Boligstoette.node());
    v.push(BoerneYdelse.node());
    v
}

} // verus!
