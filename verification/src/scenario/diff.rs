use vstd::prelude::*;

use crate::batch::evaluator::eligible_in;
use crate::batch::types::{BatchResult, CompactBorgerResult};
use crate::rule_engine::{rule_index, rule_slot, RuleId};

verus! {

/// Among the first `n` citizens, how many become eligible for the rule at slot `k`.
pub open spec fn gained_in<A>(
    base: Seq<CompactBorgerResult<A>>,
    scen: Seq<CompactBorgerResult<A>>,
    k: int,
    n: int,
) -> nat
    decreases n,
{
    if n <= 0 {
        0
    } else {
        gained_in(base, scen, k, n - 1) + if !base[n - 1].eligible@[k] && scen[n - 1].eligible@[k] {
            1nat
        } else {
            0nat
        }
    }
}

/// Among the first `n` citizens, how many lose eligibility for the rule at slot `k`.
pub open spec fn lost_in<A>(
    base: Seq<CompactBorgerResult<A>>,
    scen: Seq<CompactBorgerResult<A>>,
    k: int,
    n: int,
) -> nat
    decreases n,
{
    if n <= 0 {
        0
    } else {
        lost_in(base, scen, k, n - 1) + if base[n - 1].eligible@[k] && !scen[n - 1].eligible@[k] {
            1nat
        } else {
            0nat
        }
    }
}

/// The change in the number of eligible citizens is the number who gain
/// eligibility less the number who lose it.
pub proof fn lemma_eligibility_balance<A>(
    base: Seq<CompactBorgerResult<A>>,
    scen: Seq<CompactBorgerResult<A>>,
    k: int,
    n: int,
)
    requires
        0 <= n <= base.len(),
        n <= scen.len(),
    ensures
        eligible_in(scen.take(n), k) + lost_in(base, scen, k, n) == eligible_in(base.take(n), k) + gained_in(
            base,
            scen,
            k,
            n,
        ),
    decreases n,
{
    if n > 0 {
        lemma_eligibility_balance(base, scen, k, n - 1);
        assert(base.take(n).drop_last() =~= base.take(n - 1));
        assert(scen.take(n).drop_last() =~= scen.take(n - 1));
    }
}

/// How many citizens gain and how many lose eligibility for a rule between
/// the baseline and the scenario.
pub fn eligibility_changes<A>(baseline: &BatchResult<A>, scenario: &BatchResult<A>, rule_id: RuleId) -> (r: (
    usize,
    usize,
))
    requires
        baseline.wf(),
        scenario.wf(),
        baseline.count <= scenario.count,
    ensures
        r.0 == gained_in(baseline.borger_results@, scenario.borger_results@, rule_slot(rule_id), baseline.count as int),
        r.1 == lost_in(baseline.borger_results@, scenario.borger_results@, rule_slot(rule_id), baseline.count as int),
{
    let k = rule_index(rule_id);
    let n = baseline.count;
    let mut gained: usize = 0;
    let mut lost: usize = 0;
    let mut i: usize = 0;
    while i < n
        invariant
            n == baseline.count,
            baseline.wf(),
            scenario.wf(),
            baseline.count <= scenario.count,
            k == rule_slot(rule_id),
            0 <= i <= n,
            gained <= i,
            lost <= i,
            gained == gained_in(baseline.borger_results@, scenario.borger_results@, k as int, i as int),
            lost == lost_in(baseline.borger_results@, scenario.borger_results@, k as int, i as int),
        decreases n - i,
    {
        let base_elig = baseline.borger_results[i].eligible[k];
        let scen_elig = scenario.borger_results[i].eligible[k];
        if !base_elig && scen_elig {
            gained += 1;
        }
        if base_elig && !scen_elig {
            lost += 1;
        }
        i += 1;
    }
    (gained, lost)
}

/// Among the first `n` citizens, how many are flagged and live in municipality `k`.
pub open spec fn affected_in(ids: Seq<u8>, flags: Seq<bool>, k: int, n: int) -> nat
    decreases n,
{
    if n <= 0 {
        0
    } else {
        affected_in(ids, flags, k, n - 1) + if flags[n - 1] && ids[n - 1] as int == k {
            1nat
        } else {
            0nat
        }
    }
}

/// Among the first `n` citizens, how many are flagged.
pub open spec fn flagged_in(flags: Seq<bool>, n: int) -> nat
    decreases n,
{
    if n <= 0 {
        0
    } else {
        flagged_in(flags, n - 1) + if flags[n - 1] {
            1nat
        } else {
            0nat
        }
    }
}

/// Flagged citizens among the first `n` over the municipalities with ids below `upto`.
pub open spec fn affected_below(ids: Seq<u8>, flags: Seq<bool>, n: int, upto: int) -> nat
    decreases upto,
{
    if upto <= 0 {
        0
    } else {
        affected_below(ids, flags, n, upto - 1) + affected_in(ids, flags, upto - 1, n)
    }
}

proof fn lemma_affected_below_step(ids: Seq<u8>, flags: Seq<bool>, n: int, upto: int)
    requires
        n >= 0,
    ensures
        affected_below(ids, flags, n + 1, upto) == affected_below(ids, flags, n, upto) + if flags[n]
            && 0 <= ids[n] < upto {
            1nat
        } else {
            0nat
        },
    decreases upto,
{
    if upto > 0 {
        lemma_affected_below_step(ids, flags, n, upto - 1);
    }
}

proof fn lemma_affected_below_none(ids: Seq<u8>, flags: Seq<bool>, upto: int)
    ensures
        affected_below(ids, flags, 0, upto) == 0,
    decreases upto,
{
    if upto > 0 {
        lemma_affected_below_none(ids, flags, upto - 1);
    }
}

/// The per-municipality counts of affected citizens add up to the number of
/// affected citizens.
pub proof fn lemma_affected_total(ids: Seq<u8>, flags: Seq<bool>, n: int)
    requires
        0 <= n,
    ensures
        affected_below(ids, flags, n, 256) == flagged_in(flags, n),
    decreases n,
{
    if n == 0 {
        lemma_affected_below_none(ids, flags, 256);
    } else {
        lemma_affected_total(ids, flags, n - 1);
        lemma_affected_below_step(ids, flags, n - 1, 256);
    }
}

/// Number of affected citizens.
pub fn count_affected(affected: &[bool]) -> (n: usize)
    ensures
        n == flagged_in(affected@, affected@.len() as int),
{
    let len = affected.len();
    let mut n: usize = 0;
    let mut i: usize = 0;
    while i < len
        invariant
            len == affected@.len(),
            0 <= i <= len,
            n <= i,
            n == flagged_in(affected@, i as int),
        decreases len - i,
    {
        if affected[i] {
            n += 1;
        }
        i += 1;
    }
    n
}

/// Number of affected citizens in every municipality id; `affected[i]` flags citizen `i`.
pub fn affected_per_kommune(kommune_ids: &[u8], affected: &[bool]) -> (counts: [usize; 256])
    requires
        affected@.len() <= kommune_ids@.len(),
    ensures
        forall|k: int|
            0 <= k < 256 ==> #[trigger] counts@[k] == affected_in(kommune_ids@, affected@, k, affected@.len() as int),
{
    let n = affected.len();
    let mut counts: [usize; 256] = [0; 256];
    let mut i: usize = 0;
    while i < n
        invariant
            n == affected@.len(),
            n <= kommune_ids@.len(),
            0 <= i <= n,
            forall|k: int| 0 <= k < 256 ==> #[trigger] counts@[k] == affected_in(kommune_ids@, affected@, k, i as int),
            forall|k: int| 0 <= k < 256 ==> #[trigger] counts@[k] <= i,
        decreases n - i,
    {
        if affected[i] {
            let kid = kommune_ids[i] as usize;
            counts[kid] = counts[kid] + 1;
        }
        i += 1;
    }
    counts
}

/// The municipality ids with at least one affected citizen, ascending.
pub fn affected_kommuner(counts: &[usize; 256]) -> (kids: Vec<u8>)
    ensures
        forall|a: int, b: int| 0 <= a < b < kids@.len() ==> kids@[a] < kids@[b],
        forall|k: int| 0 <= k < 256 ==> (kids@.contains(k as u8) <==> #[trigger] counts@[k] > 0),
{
    let mut kids: Vec<u8> = Vec::new();
    let mut k: usize = 0;
    while k < 256
        invariant
            0 <= k <= 256,
            forall|a: int, b: int| 0 <= a < b < kids@.len() ==> kids@[a] < kids@[b],
            forall|a: int| 0 <= a < kids@.len() ==> kids@[a] < k,
            forall|m: int| 0 <= m < k ==> (kids@.contains(m as u8) <==> #[trigger] counts@[m] > 0),
        decreases 256 - k,
    {
        if counts[k] > 0 {
            let ghost before = kids@;
            kids.push(k as u8);
            proof {
                assert forall|m: int| 0 <= m < k + 1 implies (kids@.contains(m as u8) <==> #[trigger] counts@[m] > 0) by {
                    if m == k {
                        assert(kids@[before.len() as int] == k as u8);
                    } else {
                        if before.contains(m as u8) {
                            let x = choose|x: int| 0 <= x < before.len() && before[x] == m as u8;
                            assert(kids@[x] == m as u8);
                        }
                        if kids@.contains(m as u8) {
                            let x = choose|x: int| 0 <= x < kids@.len() && kids@[x] == m as u8;
                            if x == before.len() {
                                assert(kids@[x] == k as u8);
                            } else {
                                assert(before[x] == m as u8);
                            }
                        }
                    }
                }
            }
        } else {
            proof {
                assert forall|m: int| 0 <= m < k + 1 implies (kids@.contains(m as u8) <==> #[trigger] counts@[m] > 0) by {
                    if m == k && kids@.contains(m as u8) {
                        let x = choose|x: int| 0 <= x < kids@.len() && kids@[x] == m as u8;
                    }
                }
            }
        }
        k += 1;
    }
    kids
}

} // verus!
