use vstd::prelude::*;

use crate::rule_engine::{standard_dependencies, RuleId, RuleNode};

verus! {

/// Child benefit: a root rule.
pub struct BoerneYdelse;

impl BoerneYdelse {
    pub fn id(&self) -> (r: RuleId)
        ensures
            r == RuleId::BoerneYdelse,
    {
        RuleId::BoerneYdelse
    }

    pub fn dependencies(&self) -> (r: Vec<RuleId>)
        ensures
            r@ == standard_dependencies(RuleId::BoerneYdelse),
    {
        Vec::new()
    }

    pub fn node(&self) -> (r: RuleNode)
        ensures
            r.id == RuleId::BoerneYdelse,
            r.dependencies@ == standard_dependencies(RuleId::BoerneYdelse),
    {
        RuleNode { id: self.id(), dependencies: self.dependencies() }
    }
}

/// The child benefit age tier of a child: 0-2, 3-6, 7-14 or 15-17 years;
/// older children are in no tier.
pub open spec fn age_tier(age: u8) -> Option<usize> {
    if age <= 2 {
        Some(0)
    } else if age <= 6 {
        Some(1)
    } else if age <= 14 {
        Some(2)
    } else if age <= 17 {
        Some(3)
    } else {
        None
    }
}

pub fn boerne_age_tier(age: u8) -> (t: Option<usize>)
    ensures
        t == age_tier(age),
        age <= 2 ==> t == Some(0usize),
        3 <= age <= 6 ==> t == Some(1usize),
        7 <= age <= 14 ==> t == Some(2usize),
        15 <= age <= 17 ==> t == Some(3usize),
        age > 17 ==> t is None,
{
    if age <= 2 {
        Some(0)
    } else if age <= 6 {
        Some(1)
    } else if age <= 14 {
        Some(2)
    } else if age <= 17 {
        Some(3)
    } else {
        None
    }
}

/// Number of children among `ages` in tier `t`.
pub open spec fn children_in_tier(ages: Seq<u8>, t: usize) -> nat
    decreases ages.len(),
{
    if ages.len() == 0 {
        0
    } else {
        children_in_tier(ages.drop_last(), t) + if age_tier(ages.last()) == Some(t) {
            1nat
        } else {
            0nat
        }
    }
}

/// The age tiers are the year ranges 0-2, 3-6, 7-14 and 15-17; older
/// children are in none.
pub proof fn lemma_age_tier_ranges(age: u8)
    ensures
        age <= 2 ==> age_tier(age) == Some(0usize),
        3 <= age <= 6 ==> age_tier(age) == Some(1usize),
        7 <= age <= 14 ==> age_tier(age) == Some(2usize),
        15 <= age <= 17 ==> age_tier(age) == Some(3usize),
        age > 17 ==> age_tier(age) is None,
{
}

proof fn lemma_children_filter(ages: Seq<u8>, t: usize, p: spec_fn(u8) -> bool)
    requires
        t < 4,
        forall|a: u8|
            #[trigger] p(a) == ((t == 0 && a <= 2) || (t == 1 && 3 <= a <= 6) || (t == 2 && 7 <= a <= 14) || (t
                == 3 && 15 <= a <= 17)),
    ensures
        children_in_tier(ages, t) == ages.filter(p).len(),
    decreases ages.len(),
{
    reveal(Seq::filter);
    if ages.len() > 0 {
        lemma_children_filter(ages.drop_last(), t, p);
        assert(p(ages.last()) == (age_tier(ages.last()) == Some(t)));
    }
}

/// Each tier count is the number of children, counted with repetition,
/// whose age lies in the tier's year range.
pub proof fn lemma_children_in_tier_counts(ages: Seq<u8>, t: usize)
    requires
        t < 4,
    ensures
        children_in_tier(ages, t) == ages.filter(
            |a: u8|
                (t == 0 && a <= 2) || (t == 1 && 3 <= a <= 6) || (t == 2 && 7 <= a <= 14) || (t == 3 && 15 <= a
                    <= 17),
        ).len(),
{
    let p = |a: u8|
        (t == 0 && a <= 2) || (t == 1 && 3 <= a <= 6) || (t == 2 && 7 <= a <= 14) || (t == 3 && 15 <= a <= 17);
    lemma_children_filter(ages, t, p);
}

/// One more child adds exactly one to the count of its tier and leaves the
/// other tiers as they were.
pub proof fn lemma_children_in_tier_push(ages: Seq<u8>, age: u8, t: usize)
    ensures
        children_in_tier(ages.push(age), t) == children_in_tier(ages, t) + if age_tier(age) == Some(t) {
            1nat
        } else {
            0nat
        },
{
    assert(ages.push(age).drop_last() =~= ages);
}

proof fn lemma_tier_prefix(ages: Seq<u8>, i: int, t: usize)
    requires
        0 <= i <= ages.len(),
    ensures
        children_in_tier(ages.take(i), t) <= children_in_tier(ages, t),
    decreases ages.len() - i,
{
    if i < ages.len() {
        lemma_tier_prefix(ages, i + 1, t);
        assert(ages.take(i + 1).drop_last() =~= ages.take(i));
    } else {
        assert(ages.take(i) =~= ages);
    }
}

/// How many children fall in each age tier; each count must fit in a `u8`.
pub fn count_children_by_tier(ages: &[u8]) -> (counts: [u8; 4])
    requires
        forall|t: usize| t < 4 ==> #[trigger] children_in_tier(ages@, t) <= 255,
    ensures
        forall|t: int| 0 <= t < 4 ==> #[trigger] counts@[t] == children_in_tier(ages@, t as usize),
        forall|t: int|
            0 <= t < 4 ==> #[trigger] counts@[t] == ages@.filter(
                |a: u8|
                    (t == 0 && a <= 2) || (t == 1 && 3 <= a <= 6) || (t == 2 && 7 <= a <= 14) || (t == 3 && 15
                        <= a <= 17),
            ).len(),
{
    let n = ages.len();
    let mut counts: [u8; 4] = [0, 0, 0, 0];
    let mut i: usize = 0;
    while i < n
        invariant
            n == ages@.len(),
            forall|t: usize| t < 4 ==> #[trigger] children_in_tier(ages@, t) <= 255,
            0 <= i <= n,
            forall|t: int| 0 <= t < 4 ==> #[trigger] counts@[t] == children_in_tier(ages@.take(i as int), t as usize),
        decreases n - i,
    {
        assert(ages@.take(i + 1).drop_last() =~= ages@.take(i as int));
        proof {
            assert forall|t: usize| t < 4 implies #[trigger] children_in_tier(ages@.take(i + 1), t) <= 255 by {
                lemma_tier_prefix(ages@, i + 1, t);
            }
        }
        match boerne_age_tier(ages[i]) {
            Some(t) => {
                assert(ages@.take(i + 1).last() == ages@[i as int]);
                assert(children_in_tier(ages@.take(i + 1), t) == children_in_tier(ages@.take(i as int), t) + 1);
                counts[t] = counts[t] + 1;
            },
            None => {},
        }
        i += 1;
    }
    assert(ages@.take(n as int) =~= ages@);
    proof {
        assert forall|t: int| 0 <= t < 4 implies #[trigger] counts@[t] == ages@.filter(
            |a: u8|
                (t == 0 && a <= 2) || (t == 1 && 3 <= a <= 6) || (t == 2 && 7 <= a <= 14) || (t == 3 && 15 <= a
                    <= 17),
        ).len() by {
            let p = |a: u8|
                (t == 0 && a <= 2) || (t == 1 && 3 <= a <= 6) || (t == 2 && 7 <= a <= 14) || (t == 3 && 15 <= a
                    <= 17);
            lemma_children_filter(ages@, t as usize, p);
        }
    }
    counts
}

} // verus!
