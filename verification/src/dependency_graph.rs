use vstd::prelude::*;

use crate::error::EngineError;
use crate::rule_engine::{
    lemma_rule_slot_bijection, rule_at, rule_index, rule_of_slot, rule_slot, rule_variant_label,
    rule_variant_name, RuleId, RuleNode,
};

verus! {

/// Some rule in `rules` has the id `id`.
pub open spec fn declares(rules: Seq<RuleNode>, id: RuleId) -> bool {
    exists|i: int| 0 <= i < rules.len() && (#[trigger] rules[i]).id == id
}

/// `a` stands strictly before `b` in `order`.
pub open spec fn comes_before(order: Seq<RuleId>, a: RuleId, b: RuleId) -> bool {
    exists|p: int, q: int| 0 <= p < q < order.len() && order[p] == a && order[q] == b
}

/// `order` lists every declared rule once, and each rule after all rules it reads.
pub open spec fn is_evaluation_order(order: Seq<RuleId>, rules: Seq<RuleNode>) -> bool {
    &&& order.no_duplicates()
    &&& forall|id: RuleId|
        #![trigger order.contains(id)]
        #![trigger declares(rules, id)]
        order.contains(id) <==> declares(rules, id)
    &&& forall|i: int, j: int|
        0 <= i < rules.len() && 0 <= j < rules[i].dependencies@.len() ==> comes_before(
            order,
            #[trigger] rules[i].dependencies@[j],
            rules[i].id,
        )
}

/// The rules can be put in an evaluation order.
pub open spec fn orderable(rules: Seq<RuleNode>) -> bool {
    exists|order: Seq<RuleId>| is_evaluation_order(order, rules)
}

/// Every rule in `rules` with id `id` reads only rules in `placed`.
pub open spec fn reads_only(rules: Seq<RuleNode>, id: RuleId, placed: Set<RuleId>) -> bool {
    forall|i: int, j: int|
        0 <= i < rules.len() && rules[i].id == id && 0 <= j < rules[i].dependencies@.len()
            ==> placed.contains(#[trigger] rules[i].dependencies@[j])
}

/// One round of placement: `placed` plus every declared rule that reads only placed rules.
pub open spec fn settle(rules: Seq<RuleNode>, placed: Set<RuleId>) -> Set<RuleId> {
    Set::new(
        |id: RuleId| placed.contains(id) || (declares(rules, id) && reads_only(rules, id, placed)),
    )
}

/// The rules placed after `n` rounds, starting from none.
pub open spec fn settle_rounds(rules: Seq<RuleNode>, n: nat) -> Set<RuleId>
    decreases n,
{
    if n == 0 {
        Set::empty()
    } else {
        settle(rules, settle_rounds(rules, (n - 1) as nat))
    }
}

/// The rules that can be placed at all: three rounds reach every one of the three rules.
pub open spec fn placeable(rules: Seq<RuleNode>) -> Set<RuleId> {
    settle_rounds(rules, 3)
}

/// The declared rules outside `placed` among the first `k` slots, in slot order.
pub open spec fn unplaced_upto(rules: Seq<RuleNode>, placed: Set<RuleId>, k: nat) -> Seq<RuleId>
    decreases k,
{
    if k == 0 {
        Seq::empty()
    } else {
        let prev = unplaced_upto(rules, placed, (k - 1) as nat);
        let id = rule_of_slot(k - 1);
        if declares(rules, id) && !placed.contains(id) {
            prev.push(id)
        } else {
            prev
        }
    }
}

/// The declared rules that cannot be placed, in slot order.
pub open spec fn unplaceable_ids(rules: Seq<RuleNode>) -> Seq<RuleId> {
    unplaced_upto(rules, placeable(rules), 3)
}

/// Variant names joined by an arrow.
pub open spec fn join_labels(ids: Seq<RuleId>) -> Seq<char>
    decreases ids.len(),
{
    if ids.len() == 0 {
        Seq::empty()
    } else if ids.len() == 1 {
        rule_variant_label(ids[0])
    } else {
        join_labels(ids.drop_last()) + " → "@ + rule_variant_label(ids.last())
    }
}

/// The set of rules marked in a slot-indexed flag array.
pub open spec fn flagged(done: Seq<bool>) -> Set<RuleId> {
    Set::new(|id: RuleId| done[rule_slot(id)])
}

/// Rules in evaluation order, dependencies first.
#[derive(Debug)]
pub struct DependencyGraph {
    order: Vec<RuleId>,
}

impl View for DependencyGraph {
    type V = Seq<RuleId>;

    closed spec fn view(&self) -> Seq<RuleId> {
        self.order@
    }
}

proof fn lemma_settle_grows(rules: Seq<RuleNode>, placed: Set<RuleId>)
    ensures
        placed.subset_of(settle(rules, placed)),
{
}

proof fn lemma_settle_monotone(rules: Seq<RuleNode>, a: Set<RuleId>, b: Set<RuleId>)
    requires
        a.subset_of(b),
    ensures
        settle(rules, a).subset_of(settle(rules, b)),
{
    assert forall|id: RuleId| settle(rules, a).contains(id) implies settle(rules, b).contains(
        id,
    ) by {
        if !a.contains(id) {
            assert forall|i: int, j: int|
                0 <= i < rules.len() && rules[i].id == id && 0 <= j
                    < rules[i].dependencies@.len() implies b.contains(
                #[trigger] rules[i].dependencies@[j],
            ) by {
                assert(a.contains(rules[i].dependencies@[j]));
            }
        }
    }
}

proof fn lemma_rounds_chain(rules: Seq<RuleNode>, m: nat, n: nat)
    requires
        m <= n,
    ensures
        settle_rounds(rules, m).subset_of(settle_rounds(rules, n)),
    decreases n - m,
{
    if m < n {
        lemma_rounds_chain(rules, m, (n - 1) as nat);
        lemma_settle_grows(rules, settle_rounds(rules, (n - 1) as nat));
    }
}

/// Every round stays inside a set that is closed under placement.
proof fn lemma_rounds_below_closed(rules: Seq<RuleNode>, closed: Set<RuleId>, n: nat)
    requires
        settle(rules, closed).subset_of(closed),
    ensures
        settle_rounds(rules, n).subset_of(closed),
    decreases n,
{
    if n > 0 {
        lemma_rounds_below_closed(rules, closed, (n - 1) as nat);
        lemma_settle_monotone(rules, settle_rounds(rules, (n - 1) as nat), closed);
    }
}

/// Three distinct rule ids cover all rule ids.
proof fn lemma_three_distinct_cover(s: Seq<RuleId>, x: RuleId)
    requires
        s.no_duplicates(),
        s.len() >= 3,
    ensures
        s.contains(x),
{
    assert(s[0] != s[1] && s[0] != s[2] && s[1] != s[2]);
    if x == s[0] {
        assert(s.contains(x));
    } else if x == s[1] {
        assert(s.contains(x));
    } else {
        assert(x == s[2]);
        assert(s.contains(x));
    }
}

/// If each declared rule left unmarked reads an unmarked rule, then no evaluation
/// order marks its first `n` entries only partly: all of them are marked.
proof fn lemma_stuck_prefix(rules: Seq<RuleNode>, done: Seq<bool>, o: Seq<RuleId>, n: int)
    requires
        done.len() == 3,
        is_evaluation_order(o, rules),
        forall|id: RuleId|
            #![trigger declares(rules, id)]
            declares(rules, id) && !done[rule_slot(id)] ==> !reads_only(
                rules,
                id,
                flagged(done),
            ),
    ensures
        forall|p: int| 0 <= p < n && p < o.len() ==> done[rule_slot(#[trigger] o[p])],
    decreases n,
{
    if n > 0 {
        lemma_stuck_prefix(rules, done, o, n - 1);
        let p = n - 1;
        if p < o.len() && !done[rule_slot(o[p])] {
            let id = o[p];
            assert(o.contains(id));
            assert(declares(rules, id));
            let (i, j) = choose|i: int, j: int|
                0 <= i < rules.len() && rules[i].id == id && 0 <= j
                    < rules[i].dependencies@.len() && !flagged(done).contains(
                    #[trigger] rules[i].dependencies@[j],
                );
            let d = rules[i].dependencies@[j];
            assert(comes_before(o, d, id));
            let (pp, qq) = choose|pp: int, qq: int|
                0 <= pp < qq < o.len() && o[pp] == d && o[qq] == id;
            assert(qq == p);
            assert(done[rule_slot(o[pp])]);
        }
    }
}

/// When some declared rule is unmarked and every unmarked declared rule reads an
/// unmarked rule, the rules have no evaluation order.
proof fn lemma_stuck_not_orderable(rules: Seq<RuleNode>, done: Seq<bool>, left: RuleId)
    requires
        done.len() == 3,
        declares(rules, left),
        !done[rule_slot(left)],
        forall|id: RuleId|
            #![trigger declares(rules, id)]
            declares(rules, id) && !done[rule_slot(id)] ==> !reads_only(
                rules,
                id,
                flagged(done),
            ),
    ensures
        !orderable(rules),
{
    if orderable(rules) {
        let o = choose|o: Seq<RuleId>| is_evaluation_order(o, rules);
        lemma_stuck_prefix(rules, done, o, o.len() as int);
        assert(o.contains(left));
        let p = choose|p: int| 0 <= p < o.len() && o[p] == left;
        assert(done[rule_slot(o[p])]);
    }
}

proof fn lemma_unplaced_len(rules: Seq<RuleNode>, placed: Set<RuleId>, k: nat)
    requires
        k <= 3,
    ensures
        unplaced_upto(rules, placed, k).len() == 0 <==> forall|m: int|
            0 <= m < k ==> !(declares(rules, #[trigger] rule_of_slot(m)) && !placed.contains(
                rule_of_slot(m),
            )),
    decreases k,
{
    if k > 0 {
        lemma_unplaced_len(rules, placed, (k - 1) as nat);
    }
}

proof fn lemma_label_nonempty(id: RuleId)
    ensures
        rule_variant_label(id).len() > 0,
{
    reveal_strlit("Kontanthjaelp");
    reveal_strlit("Boligstoette");
    reveal_strlit("BoerneYdelse");
}

proof fn lemma_join_nonempty(ids: Seq<RuleId>)
    requires
        ids.len() > 0,
    ensures
        join_labels(ids).len() > 0,
{
    lemma_label_nonempty(ids.last());
    if ids.len() == 1 {
        assert(ids.last() == ids[0]);
    }
}

/// Whether every rule in `rules` with id `id` reads only rules marked in `done`.
fn reads_only_marked(rules: &[RuleNode], id: RuleId, done: &Vec<bool>) -> (b: bool)
    requires
        done@.len() == 3,
    ensures
        b == reads_only(rules@, id, flagged(done@)),
{
    let n = rules.len();
    let mut i: usize = 0;
    while i < n
        invariant
            n == rules@.len(),
            0 <= i <= n,
            done@.len() == 3,
            forall|a: int, j: int|
                0 <= a < i && rules@[a].id == id && 0 <= j < rules@[a].dependencies@.len()
                    ==> flagged(done@).contains(#[trigger] rules@[a].dependencies@[j]),
        decreases n - i,
    {
        if rules[i].id == id {
            let deps = &rules[i].dependencies;
            let m = deps.len();
            let mut j: usize = 0;
            while j < m
                invariant
                    n == rules@.len(),
                    0 <= i < n,
                    rules@[i as int].id == id,
                    deps@ == rules@[i as int].dependencies@,
                    m == deps@.len(),
                    0 <= j <= m,
                    done@.len() == 3,
                    forall|jj: int|
                        0 <= jj < j ==> flagged(done@).contains(#[trigger] deps@[jj]),
                decreases m - j,
            {
                if !done[rule_index(deps[j])] {
                    assert(!flagged(done@).contains(rules@[i as int].dependencies@[j as int]));
                    return false;
                }
                j += 1;
            }
        }
        i += 1;
    }
    true
}

/// Whether a rule with id `id` occurs in `rules`.
fn is_declared(rules: &[RuleNode], id: RuleId) -> (b: bool)
    ensures
        b == declares(rules@, id),
{
    let n = rules.len();
    let mut i: usize = 0;
    while i < n
        invariant
            n == rules@.len(),
            0 <= i <= n,
            forall|a: int| 0 <= a < i ==> (#[trigger] rules@[a]).id != id,
        decreases n - i,
    {
        if rules[i].id == id {
            return true;
        }
        i += 1;
    }
    false
}

impl DependencyGraph {
    #[verifier::type_invariant]
    spec fn order_distinct(&self) -> bool {
        self.order@.no_duplicates()
    }

    /// Orders the rules so that every rule comes after the rules it reads.
    /// Fails with `CyclicDependency` exactly when no such order exists: a rule
    /// reads itself through a cycle, or reads a rule that is not given.
    pub fn build(rules: &[RuleNode]) -> (res: Result<DependencyGraph, EngineError>)
        ensures
            res is Ok <==> orderable(rules@),
            res matches Ok(g) ==> is_evaluation_order(g@, rules@),
            res matches Err(e) ==> (e matches EngineError::CyclicDependency { cycle } && cycle@
                == join_labels(unplaceable_ids(rules@)) && cycle@.len() > 0),
    {
        proof {
            lemma_rule_slot_bijection();
        }
        let mut present: Vec<bool> = Vec::new();
        let mut done: Vec<bool> = Vec::new();
        let mut k: usize = 0;
        while k < 3
            invariant
                0 <= k <= 3,
                present@.len() == k,
                done@.len() == k,
                forall|m: int| 0 <= m < k ==> #[trigger] present@[m] == declares(rules@, rule_of_slot(m)),
                forall|m: int| 0 <= m < k ==> !(#[trigger] done@[m]),
            decreases 3 - k,
        {
            present.push(is_declared(rules, rule_at(k)));
            done.push(false);
            k += 1;
        }
        let mut order: Vec<RuleId> = Vec::new();
        proof {
            assert(flagged(done@) =~= Set::<RuleId>::empty());
        }
        loop
            invariant
                present@.len() == 3,
                done@.len() == 3,
                forall|m: int| 0 <= m < 3 ==> #[trigger] present@[m] == declares(rules@, rule_of_slot(m)),
                order@.no_duplicates(),
                order@.len() <= 3,
                forall|id: RuleId| #[trigger] order@.contains(id) <==> done@[rule_slot(id)],
                forall|id: RuleId| done@[rule_slot(id)] ==> #[trigger] declares(rules@, id),
                forall|i: int, j: int|
                    0 <= i < rules@.len() && done@[rule_slot(rules@[i].id)] && 0 <= j
                        < rules@[i].dependencies@.len() ==> comes_before(
                        order@,
                        #[trigger] rules@[i].dependencies@[j],
                        rules@[i].id,
                    ),
                flagged(done@).subset_of(settle_rounds(rules@, order@.len() as nat)),
            ensures
                present@.len() == 3,
                done@.len() == 3,
                forall|m: int| 0 <= m < 3 ==> #[trigger] present@[m] == declares(rules@, rule_of_slot(m)),
                order@.no_duplicates(),
                forall|id: RuleId| #[trigger] order@.contains(id) <==> done@[rule_slot(id)],
                forall|id: RuleId| done@[rule_slot(id)] ==> #[trigger] declares(rules@, id),
                forall|i: int, j: int|
                    0 <= i < rules@.len() && done@[rule_slot(rules@[i].id)] && 0 <= j
                        < rules@[i].dependencies@.len() ==> comes_before(
                        order@,
                        #[trigger] rules@[i].dependencies@[j],
                        rules@[i].id,
                    ),
                flagged(done@).subset_of(placeable(rules@)),
                forall|id: RuleId|
                    #![trigger declares(rules@, id)]
                    declares(rules@, id) && !done@[rule_slot(id)] ==> !reads_only(
                        rules@,
                        id,
                        flagged(done@),
                    ),
            decreases 3 - order@.len(),
        {
            let mut picked: Option<usize> = None;
            let mut c: usize = 0;
            while c < 3
                invariant
                    0 <= c <= 3,
                    present@.len() == 3,
                    done@.len() == 3,
                    forall|m: int| 0 <= m < 3 ==> #[trigger] present@[m] == declares(rules@, rule_of_slot(m)),
                    picked matches Some(p) ==> p < 3 && present@[p as int] && !done@[p as int]
                        && reads_only(rules@, rule_of_slot(p as int), flagged(done@)),
                    picked is None ==> forall|m: int|
                        0 <= m < c && #[trigger] present@[m] && !done@[m] ==> !reads_only(
                            rules@,
                            rule_of_slot(m),
                            flagged(done@),
                        ),
                decreases 3 - c,
            {
                if picked.is_none() && present[c] && !done[c] && reads_only_marked(
                    rules,
                    rule_at(c),
                    &done,
                ) {
                    picked = Some(c);
                }
                c += 1;
            }
            match picked {
                None => {
                    proof {
                        assert forall|id: RuleId|
                            #![trigger declares(rules@, id)]
                            declares(rules@, id) && !done@[rule_slot(id)] implies !reads_only(
                            rules@,
                            id,
                            flagged(done@),
                        ) by {
                            assert(present@[rule_slot(id)]);
                        }
                        assert(settle(rules@, flagged(done@)).subset_of(flagged(done@)));
                        lemma_rounds_below_closed(rules@, flagged(done@), 3);
                        lemma_rounds_chain(rules@, order@.len() as nat, 3);
                    }
                    break ;
                },
                Some(p) => {
                    let id = rule_at(p);
                    let ghost old_order = order@;
                    let ghost old_done = done@;
                    proof {
                        if order@.len() >= 3 {
                            lemma_three_distinct_cover(order@, id);
                        }
                        lemma_settle_monotone(
                            rules@,
                            flagged(old_done),
                            settle_rounds(rules@, old_order.len() as nat),
                        );
                        lemma_settle_grows(rules@, settle_rounds(rules@, old_order.len() as nat));
                    }
                    done.set(p, true);
                    order.push(id);
                    proof {
                        assert(old_order.len() < 3);
                        assert(!old_order.contains(id));
                        assert forall|a: int, b: int|
                            0 <= a < order@.len() && 0 <= b < order@.len() && a != b implies order@[a]
                            != order@[b] by {
                            if a == old_order.len() as int {
                                assert(old_order[b] == order@[b]);
                            } else if b == old_order.len() as int {
                                assert(old_order[a] == order@[a]);
                            } else {
                                assert(old_order[a] == order@[a] && old_order[b] == order@[b]);
                            }
                        }
                        assert forall|x: RuleId| #[trigger] order@.contains(x) <==> done@[rule_slot(x)] by {
                            if x == id {
                                assert(order@[old_order.len() as int] == id);
                            } else if old_order.contains(x) {
                                let q = choose|q: int| 0 <= q < old_order.len() && old_order[q] == x;
                                assert(order@[q] == x);
                            } else if order@.contains(x) {
                                let q = choose|q: int| 0 <= q < order@.len() && order@[q] == x;
                                assert(q < old_order.len());
                                assert(old_order[q] == x);
                            }
                        }
                        assert forall|i: int, j: int|
                            0 <= i < rules@.len() && done@[rule_slot(rules@[i].id)] && 0 <= j
                                < rules@[i].dependencies@.len() implies comes_before(
                            order@,
                            #[trigger] rules@[i].dependencies@[j],
                            rules@[i].id,
                        ) by {
                            let d = rules@[i].dependencies@[j];
                            if rules@[i].id == id {
                                assert(flagged(old_done).contains(d));
                                assert(old_order.contains(d));
                                let q = choose|q: int| 0 <= q < old_order.len() && old_order[q] == d;
                                assert(order@[q] == d);
                                assert(order@[old_order.len() as int] == id);
                            } else {
                                assert(comes_before(old_order, d, rules@[i].id));
                                let (pp, qq) = choose|pp: int, qq: int|
                                    0 <= pp < qq < old_order.len() && old_order[pp] == d
                                        && old_order[qq] == rules@[i].id;
                                assert(order@[pp] == d && order@[qq] == rules@[i].id);
                            }
                        }
                        assert(flagged(done@) =~= flagged(old_done).insert(id));
                        assert(declares(rules@, id));
                        assert(settle(rules@, settle_rounds(rules@, old_order.len() as nat)).contains(id));
                        assert(settle_rounds(rules@, order@.len() as nat) == settle(
                            rules@,
                            settle_rounds(rules@, old_order.len() as nat),
                        ));
                    }
                },
            }
        }
        // every declared rule placed?
        let mut all_placed = true;
        let mut c: usize = 0;
        while c < 3
            invariant
                0 <= c <= 3,
                present@.len() == 3,
                done@.len() == 3,
                all_placed <==> forall|m: int| 0 <= m < c ==> !(#[trigger] present@[m] && !done@[m]),
            decreases 3 - c,
        {
            if present[c] && !done[c] {
                all_placed = false;
            }
            c += 1;
        }
        if all_placed {
            proof {
                assert forall|x: RuleId|
                    #![trigger order@.contains(x)]
                    #![trigger declares(rules@, x)]
                    order@.contains(x) <==> declares(rules@, x) by {
                    if declares(rules@, x) {
                        assert(present@[rule_slot(x)]);
                    }
                }
                assert forall|i: int, j: int|
                    0 <= i < rules@.len() && 0 <= j < rules@[i].dependencies@.len() implies comes_before(
                    order@,
                    #[trigger] rules@[i].dependencies@[j],
                    rules@[i].id,
                ) by {
                    assert(declares(rules@, rules@[i].id));
                    assert(present@[rule_slot(rules@[i].id)]);
                }
                assert(is_evaluation_order(order@, rules@));
            }
            Ok(DependencyGraph { order })
        } else {
            let ghost placed = flagged(done@);
            proof {
                assert(placed =~= placeable(rules@)) by {
                    let m = choose|m: int| 0 <= m < 3 && #[trigger] present@[m] && !done@[m];
                    assert forall|x: RuleId| placeable(rules@).contains(x) implies placed.contains(x) by {
                        assert(settle(rules@, placed).subset_of(placed)) by {
                            assert forall|y: RuleId| settle(rules@, placed).contains(y) implies placed.contains(y) by {
                                if !placed.contains(y) {
                                    assert(declares(rules@, y));
                                }
                            }
                        }
                        lemma_rounds_below_closed(rules@, placed, 3);
                    }
                }
                let m = choose|m: int| 0 <= m < 3 && #[trigger] present@[m] && !done@[m];
                lemma_stuck_not_orderable(rules@, done@, rule_of_slot(m));
            }
            let mut cycle = String::new();
            let mut any = false;
            let mut c: usize = 0;
            while c < 3
                invariant
                    0 <= c <= 3,
                    any == (unplaced_upto(rules@, placed, c as nat).len() > 0),
                    present@.len() == 3,
                    done@.len() == 3,
                    placed == flagged(done@),
                    forall|m: int| 0 <= m < 3 ==> #[trigger] present@[m] == declares(rules@, rule_of_slot(m)),
                    cycle@ == join_labels(unplaced_upto(rules@, placed, c as nat)),
                decreases 3 - c,
            {
                let ghost prev = unplaced_upto(rules@, placed, c as nat);
                if present[c] && !done[c] {
                    let id = rule_at(c);
                    proof {
                        let next = unplaced_upto(rules@, placed, (c + 1) as nat);
                        assert(next == prev.push(id));
                        assert(next.drop_last() =~= prev);
                    }
                    if any {
                        cycle.append(" → ");
                    }
                    cycle.append(rule_variant_name(id));
                    any = true;
                }
                c += 1;
            }
            proof {
                lemma_unplaced_len(rules@, placed, 3);
                let m = choose|m: int| 0 <= m < 3 && #[trigger] present@[m] && !done@[m];
                assert(declares(rules@, rule_of_slot(m)) && !placed.contains(rule_of_slot(m)));
                lemma_join_nonempty(unplaced_upto(rules@, placed, 3));
            }
            Err(EngineError::CyclicDependency { cycle })
        }
    }

    /// Rules in evaluation order (dependencies first).
    pub fn evaluation_order(&self) -> (r: &[RuleId])
        ensures
            r@ == self@,
            r@.no_duplicates(),
    {
        proof {
            use_type_invariant(self);
        }
        self.order.as_slice()
    }
}

} // verus!
