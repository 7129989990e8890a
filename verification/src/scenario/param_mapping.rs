use vstd::prelude::*;

use crate::rule_engine::RuleId;

verus! {

/// A slider parameter that a scenario can change.
#[derive(Debug, Clone, Copy, PartialEq, Eq, Hash, Structural)]
pub enum ParamId {
    /// The cash benefit base rate as set by the main slider (the rate for singles).
    KontanthjaelpBasis,
    KontanthjaelpBasisEnlig,
    KontanthjaelpBasisPar,
    Forsoergertillaeg,
    BoligstoetteGraense,
    BoerneYdelseAftrapning,
}

/// Number of parameters.
pub const PARAM_COUNT: usize = 6;

pub open spec fn param_slot(p: ParamId) -> int {
    match p {
        ParamId::KontanthjaelpBasis => 0,
        ParamId::KontanthjaelpBasisEnlig => 1,
        ParamId::KontanthjaelpBasisPar => 2,
        ParamId::Forsoergertillaeg => 3,
        ParamId::BoligstoetteGraense => 4,
        ParamId::BoerneYdelseAftrapning => 5,
    }
}

/// The root rules that read a parameter directly.
pub open spec fn param_roots(p: ParamId) -> Seq<RuleId> {
    match p {
        ParamId::BoligstoetteGraense => seq![RuleId::Boligstoette],
        ParamId::BoerneYdelseAftrapning => seq![RuleId::BoerneYdelse],
        _ => seq![RuleId::Kontanthjaelp],
    }
}

/// The parameter that the bridge numbers `id`, if any.
pub open spec fn param_of_code(id: u8) -> Option<ParamId> {
    if id == 0 {
        Some(ParamId::KontanthjaelpBasis)
    } else if id == 1 {
        Some(ParamId::Forsoergertillaeg)
    } else if id == 2 {
        Some(ParamId::BoligstoetteGraense)
    } else if id == 3 {
        Some(ParamId::BoerneYdelseAftrapning)
    } else {
        None
    }
}

/// Decodes the parameter number used by the bridge: 0 base rate, 1 child
/// supplement, 2 housing income ceiling, 3 child benefit tapering threshold.
pub fn parse_param_id(id: u8) -> (p: Option<ParamId>)
    ensures
        p == param_of_code(id),
{
    match id {
        0 => Some(ParamId::KontanthjaelpBasis),
        1 => Some(ParamId::Forsoergertillaeg),
        2 => Some(ParamId::BoligstoetteGraense),
        3 => Some(ParamId::BoerneYdelseAftrapning),
        _ => None,
    }
}

/// Explicit mapping from each parameter to the root rules it affects;
/// propagation through the dependency graph adds the rules downstream.
#[derive(Debug)]
pub struct ParamRuleMapping {
    mapping: Vec<Vec<RuleId>>,
}

impl View for ParamRuleMapping {
    type V = Map<ParamId, Seq<RuleId>>;

    closed spec fn view(&self) -> Map<ParamId, Seq<RuleId>> {
        Map::new(|p: ParamId| true, |p: ParamId| self.mapping@[param_slot(p)]@)
    }
}

fn single_root(id: RuleId) -> (v: Vec<RuleId>)
    ensures
        v@ == seq![id],
{
    let mut v = Vec::new();
    v.push(id);
    v
}

impl ParamRuleMapping {
    #[verifier::type_invariant]
    spec fn well_formed(&self) -> bool {
        self.mapping@.len() == PARAM_COUNT
    }

    pub fn new() -> (m: Self)
        ensures
            forall|p: ParamId| #[trigger] m@[p] == param_roots(p),
            forall|p: ParamId| m@.contains_key(p),
    {
        let mut mapping: Vec<Vec<RuleId>> = Vec::new();
        mapping.push(single_root(RuleId::Kontanthjaelp));
        mapping.push(single_root(RuleId::Kontanthjaelp));
        mapping.push(single_root(RuleId::Kontanthjaelp));
        mapping.push(single_root(RuleId::Kontanthjaelp));
        mapping.push(single_root(RuleId::Boligstoette));
        mapping.push(single_root(RuleId::BoerneYdelse));
        let m = ParamRuleMapping { mapping };
        assert forall|p: ParamId| #[trigger] m@[p] == param_roots(p) by {
            assert(m.mapping@[param_slot(p)]@ =~= param_roots(p));
        }
        m
    }

    /// The root rules directly affected by a change of `param_id`.
    pub fn affected_roots(&self, param_id: ParamId) -> (r: &[RuleId])
        ensures
            r@ == self@[param_id],
    {
        proof {
            use_type_invariant(self);
        }
        let k: usize = match param_id {
            ParamId::KontanthjaelpBasis => 0,
            ParamId::KontanthjaelpBasisEnlig => 1,
            ParamId::KontanthjaelpBasisPar => 2,
            ParamId::Forsoergertillaeg => 3,
            ParamId::BoligstoetteGraense => 4,
            ParamId::BoerneYdelseAftrapning => 5,
        };
        self.mapping[k].as_slice()
    }
}

impl Default for ParamRuleMapping {
    fn default() -> (m: Self)
        ensures
            forall|p: ParamId| #[trigger] m@[p] == param_roots(p),
    {
        Self::new()
    }
}

} // verus!
