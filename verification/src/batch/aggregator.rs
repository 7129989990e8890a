use vstd::prelude::*;

use crate::batch::types::{BatchResult, CompactBorgerResult, SegmentKey};
use crate::rule_engine::{rule_index, rule_slot, RuleId};

verus! {

/// The citizens of one segment: their rows in ascending order, how many of
/// them are eligible for the rule grouped by, and how many there are.
#[derive(Debug, Clone)]
pub struct SegmentGroup {
    pub key: SegmentKey,
    pub rows: Vec<usize>,
    pub eligible_count: usize,
    pub borger_count: usize,
}

/// Number of the given rows that are eligible for the rule at slot `k`.
pub open spec fn eligible_rows<A>(results: Seq<CompactBorgerResult<A>>, rows: Seq<usize>, k: int) -> nat
    decreases rows.len(),
{
    if rows.len() == 0 {
        0
    } else {
        eligible_rows(results, rows.drop_last(), k) + if results[rows.last() as int].eligible@[k] {
            1nat
        } else {
            0nat
        }
    }
}

proof fn lemma_eligible_rows_filter<A>(
    results: Seq<CompactBorgerResult<A>>,
    rows: Seq<usize>,
    k: int,
    p: spec_fn(usize) -> bool,
)
    requires
        forall|r: usize| #[trigger] p(r) == results[r as int].eligible@[k],
    ensures
        eligible_rows(results, rows, k) == rows.filter(p).len(),
    decreases rows.len(),
{
    reveal(Seq::filter);
    if rows.len() > 0 {
        lemma_eligible_rows_filter(results, rows.drop_last(), k, p);
    }
}

/// The eligible count of some rows is the number of them whose eligibility
/// flag for the rule at slot `k` is set, whatever the other rules' flags.
pub proof fn lemma_eligible_rows_counts<A>(results: Seq<CompactBorgerResult<A>>, rows: Seq<usize>, k: int)
    ensures
        eligible_rows(results, rows, k) == rows.filter(|r: usize| results[r as int].eligible@[k]).len(),
{
    let p = |r: usize| results[r as int].eligible@[k];
    lemma_eligible_rows_filter(results, rows, k, p);
}

/// `grp` holds exactly the rows whose key is its key, ascending, with their counts.
pub open spec fn is_key_group<A>(
    results: Seq<CompactBorgerResult<A>>,
    keys: Seq<SegmentKey>,
    k: int,
    grp: SegmentGroup,
) -> bool {
    &&& forall|a: int, b: int| 0 <= a < b < grp.rows@.len() ==> grp.rows@[a] < grp.rows@[b]
    &&& forall|a: int| 0 <= a < grp.rows@.len() ==> grp.rows@[a] < keys.len()
    &&& forall|i: int| 0 <= i < keys.len() ==> (grp.rows@.contains(i as usize) <==> keys[i] == grp.key)
    &&& grp.borger_count == grp.rows@.len()
    &&& grp.eligible_count == eligible_rows(results, grp.rows@, k)
}

/// `groups` splits the citizens by key: one group per key that occurs, each
/// holding exactly the rows with its key, in ascending order, with its counts.
pub open spec fn is_segmentation<A>(
    results: Seq<CompactBorgerResult<A>>,
    keys: Seq<SegmentKey>,
    k: int,
    groups: Seq<SegmentGroup>,
) -> bool {
    &&& forall|g: int, h: int| 0 <= g < h < groups.len() ==> groups[g].key != groups[h].key
    &&& forall|i: int|
        #![trigger keys[i]]
        0 <= i < keys.len() ==> exists|g: int| 0 <= g < groups.len() && (#[trigger] groups[g]).key == keys[i]
    &&& forall|g: int|
        0 <= g < groups.len() ==> exists|i: int| 0 <= i < keys.len() && keys[i] == (#[trigger] groups[g]).key
    &&& forall|g: int| 0 <= g < groups.len() ==> is_key_group(results, keys, k, #[trigger] groups[g])
}

/// The keys of `order` come in the order of their first occurrence in
/// `keys`: each occurs at a place before which only earlier keys of `order`
/// occur.
pub open spec fn in_first_occurrence_order(keys: Seq<SegmentKey>, order: Seq<SegmentKey>) -> bool {
    forall|g: int|
        #![trigger order[g]]
        0 <= g < order.len() ==> exists|i: int|
            #![trigger keys[i]]
            0 <= i < keys.len() && keys[i] == order[g] && forall|m: int|
                0 <= m < i ==> order.take(g).contains(#[trigger] keys[m])
}

/// The keys of the groups, in order.
pub open spec fn group_keys(groups: Seq<SegmentGroup>) -> Seq<SegmentKey> {
    groups.map_values(|grp: SegmentGroup| grp.key)
}

/// The distinct keys of `keys`, in order of first occurrence.
fn distinct_keys(keys: &[SegmentKey]) -> (out: Vec<SegmentKey>)
    ensures
        forall|g: int, h: int| 0 <= g < h < out@.len() ==> out@[g] != out@[h],
        forall|i: int| 0 <= i < keys@.len() ==> out@.contains(#[trigger] keys@[i]),
        forall|g: int| 0 <= g < out@.len() ==> keys@.contains(#[trigger] out@[g]),
        in_first_occurrence_order(keys@, out@),
{
    let n = keys.len();
    let mut out: Vec<SegmentKey> = Vec::new();
    let mut i: usize = 0;
    while i < n
        invariant
            n == keys@.len(),
            0 <= i <= n,
            forall|g: int, h: int| 0 <= g < h < out@.len() ==> out@[g] != out@[h],
            forall|a: int| 0 <= a < i ==> out@.contains(#[trigger] keys@[a]),
            forall|g: int| 0 <= g < out@.len() ==> keys@.contains(#[trigger] out@[g]),
            in_first_occurrence_order(keys@, out@),
        decreases n - i,
    {
        let key = keys[i];
        let m = out.len();
        let mut g: usize = 0;
        let mut found = false;
        while g < m
            invariant
                m == out@.len(),
                0 <= g <= m,
                found ==> out@.contains(key),
                !found ==> forall|h: int| 0 <= h < g ==> out@[h] != key,
            decreases m - g,
        {
            if out[g] == key {
                found = true;
            }
            g += 1;
        }
        if !found {
            let ghost before = out@;
            out.push(key);
            proof {
                assert forall|a: int| 0 <= a < i implies out@.contains(#[trigger] keys@[a]) by {
                    let h = choose|h: int| 0 <= h < before.len() && before[h] == keys@[a];
                    assert(out@[h] == keys@[a]);
                }
                assert(out@[m as int] == key);
                assert(keys@[i as int] == key);
                assert forall|g: int|
                    #![trigger out@[g]]
                    0 <= g < out@.len() implies exists|j: int|
                        #![trigger keys@[j]]
                        0 <= j < keys@.len() && keys@[j] == out@[g] && forall|x: int|
                            0 <= x < j ==> out@.take(g).contains(#[trigger] keys@[x]) by {
                    if g < m {
                        assert(out@.take(g) =~= before.take(g));
                        assert(out@[g] == before[g]);
                    } else {
                        assert(out@.take(g) =~= before);
                        assert(keys@[i as int] == out@[g]);
                    }
                }
            }
        }
        i += 1;
    }
    out
}

/// The rows whose key is `key`, ascending, and how many of them are eligible
/// for the rule at slot `k`.
fn rows_with_key<A>(result: &BatchResult<A>, keys: &[SegmentKey], key: SegmentKey, k: usize) -> (out: (
    Vec<usize>,
    usize,
))
    requires
        result.wf(),
        keys@.len() == result.count,
        k < 3,
    ensures
        forall|x: int, y: int| 0 <= x < y < out.0@.len() ==> out.0@[x] < out.0@[y],
        forall|x: int| 0 <= x < out.0@.len() ==> out.0@[x] < keys@.len(),
        forall|j: int| 0 <= j < keys@.len() ==> (out.0@.contains(j as usize) <==> keys@[j] == key),
        out.1 == eligible_rows(result.borger_results@, out.0@, k as int),
{
    let n = keys.len();
        let mut rows: Vec<usize> = Vec::new();
        let mut elig: usize = 0;
        let mut i: usize = 0;
        while i < n
            invariant
                n == keys@.len(),
                result.wf(),
                keys@.len() == result.count,
                0 <= i <= n,
                k < 3,
                rows@.len() <= i,
                elig <= rows@.len(),
                forall|x: int, y: int| 0 <= x < y < rows@.len() ==> rows@[x] < rows@[y],
                forall|x: int| 0 <= x < rows@.len() ==> rows@[x] < i,
                forall|j: int| 0 <= j < i ==> (rows@.contains(j as usize) <==> keys@[j] == key),
                elig == eligible_rows(result.borger_results@, rows@, k as int),
            decreases n - i,
        {
            if keys[i] == key {
                let ghost before = rows@;
                rows.push(i);
                proof {
                    assert(rows@.drop_last() =~= before);
                    assert forall|j: int| 0 <= j < i + 1 implies (rows@.contains(j as usize) <==> keys@[j] == key) by {
                        if j < i {
                            if before.contains(j as usize) {
                                let x = choose|x: int| 0 <= x < before.len() && before[x] == j as usize;
                                assert(rows@[x] == j as usize);
                            }
                            if rows@.contains(j as usize) {
                                let x = choose|x: int| 0 <= x < rows@.len() && rows@[x] == j as usize;
                                assert(x < before.len());
                                assert(before[x] == j as usize);
                            }
                        } else {
                            assert(rows@[before.len() as int] == i);
                        }
                    }
                }
                if result.borger_results[i].eligible[k] {
                    elig += 1;
                }
            } else {
                proof {
                    assert forall|j: int| 0 <= j < i + 1 implies (rows@.contains(j as usize) <==> keys@[j] == key) by {
                        if j == i && rows@.contains(j as usize) {
                            let x = choose|x: int| 0 <= x < rows@.len() && rows@[x] == j as usize;
                        }
                    }
                }
            }
            i += 1;
        }
    (rows, elig)
}

/// Groups the citizens by segment key for one rule. `keys[i]` is the segment
/// of citizen `i`; groups come in order of first occurrence of their key.
pub fn group_by_segment<A>(result: &BatchResult<A>, keys: &[SegmentKey], rule_id: RuleId) -> (groups:
    Vec<SegmentGroup>)
    requires
        result.wf(),
        keys@.len() == result.count,
    ensures
        is_segmentation(result.borger_results@, keys@, rule_slot(rule_id), groups@),
        in_first_occurrence_order(keys@, group_keys(groups@)),
        forall|g: int|
            0 <= g < groups@.len() ==> (#[trigger] groups@[g]).eligible_count == groups@[g].rows@.filter(
                |r: usize| result.borger_results@[r as int].eligible@[rule_slot(rule_id)],
            ).len(),
{
    let k = rule_index(rule_id);
    let distinct = distinct_keys(keys);
    let n = keys.len();
    let gn = distinct.len();
    let mut groups: Vec<SegmentGroup> = Vec::new();
    let mut g: usize = 0;
    while g < gn
        invariant
            gn == distinct@.len(),
            n == keys@.len(),
            result.wf(),
            keys@.len() == result.count,
            k == rule_slot(rule_id),
            0 <= g <= gn,
            groups@.len() == g,
            forall|a: int, b: int| 0 <= a < b < distinct@.len() ==> distinct@[a] != distinct@[b],
            forall|i: int| 0 <= i < keys@.len() ==> distinct@.contains(#[trigger] keys@[i]),
            forall|a: int| 0 <= a < distinct@.len() ==> keys@.contains(#[trigger] distinct@[a]),
            forall|a: int| 0 <= a < g ==> (#[trigger] groups@[a]).key == distinct@[a],
            forall|a: int|
                0 <= a < g ==> is_key_group(result.borger_results@, keys@, k as int, #[trigger] groups@[a]),
        decreases gn - g,
    {
        let key = distinct[g];
        let (rows, elig) = rows_with_key(result, keys, key, k);
        let count = rows.len();
        let grp = SegmentGroup { key, rows, eligible_count: elig, borger_count: count };
        assert(is_key_group(result.borger_results@, keys@, k as int, grp));
        groups.push(grp);
        g += 1;
    }
    proof {
        assert forall|i: int| #![trigger keys@[i]] 0 <= i < keys@.len() implies exists|g: int|
            0 <= g < groups@.len() && (#[trigger] groups@[g]).key == keys@[i] by {
            let h = choose|h: int| 0 <= h < distinct@.len() && distinct@[h] == keys@[i];
            assert(groups@[h].key == keys@[i]);
        }
        assert forall|g: int| 0 <= g < groups@.len() implies exists|i: int|
            0 <= i < keys@.len() && keys@[i] == (#[trigger] groups@[g]).key by {
            assert(keys@.contains(distinct@[g]));
        }
        assert(group_keys(groups@) =~= distinct@);
        assert forall|g: int| 0 <= g < groups@.len() implies (#[trigger] groups@[g]).eligible_count
            == groups@[g].rows@.filter(|r: usize| result.borger_results@[r as int].eligible@[rule_slot(rule_id)]).len() by {
            let p = |r: usize| result.borger_results@[r as int].eligible@[rule_slot(rule_id)];
            lemma_eligible_rows_filter(result.borger_results@, groups@[g].rows@, rule_slot(rule_id), p);
        }
    }
    groups
}

/// Number of places in `keys` that hold `key`.
pub open spec fn key_count(keys: Seq<SegmentKey>, key: SegmentKey) -> nat
    decreases keys.len(),
{
    if keys.len() == 0 {
        0
    } else {
        key_count(keys.drop_last(), key) + if keys.last() == key {
            1nat
        } else {
            0nat
        }
    }
}

/// Citizens counted over all groups.
pub open spec fn grouped_count(groups: Seq<SegmentGroup>) -> nat
    decreases groups.len(),
{
    if groups.len() == 0 {
        0
    } else {
        grouped_count(groups.drop_last()) + groups.last().borger_count as nat
    }
}

/// Places of `keys` counted once per group, by the group's key.
spec fn key_sum(keys: Seq<SegmentKey>, groups: Seq<SegmentGroup>) -> nat
    decreases groups.len(),
{
    if groups.len() == 0 {
        0
    } else {
        key_sum(keys, groups.drop_last()) + key_count(keys, groups.last().key)
    }
}

/// Number of groups with key `x`.
spec fn key_matches(groups: Seq<SegmentGroup>, x: SegmentKey) -> nat
    decreases groups.len(),
{
    if groups.len() == 0 {
        0
    } else {
        key_matches(groups.drop_last(), x) + if groups.last().key == x {
            1nat
        } else {
            0nat
        }
    }
}

/// Strictly ascending rows below `keys.len()`, holding exactly the places
/// with key `key`, are as many as those places.
proof fn lemma_sorted_rows_count(rows: Seq<usize>, keys: Seq<SegmentKey>, key: SegmentKey)
    requires
        forall|a: int, b: int| 0 <= a < b < rows.len() ==> rows[a] < rows[b],
        forall|a: int| 0 <= a < rows.len() ==> rows[a] < keys.len(),
        forall|i: int| 0 <= i < keys.len() ==> (rows.contains(i as usize) <==> keys[i] == key),
        keys.len() <= usize::MAX,
    ensures
        rows.len() == key_count(keys, key),
    decreases keys.len(),
{
    let n = keys.len() as int;
    if n == 0 {
        if rows.len() > 0 {
            assert(rows[0] < keys.len());
        }
    } else {
        let prev = keys.drop_last();
        if keys[n - 1] == key {
            assert(rows.contains((n - 1) as usize));
            let p = choose|p: int| 0 <= p < rows.len() && rows[p] == (n - 1) as usize;
            let l = rows.len() - 1;
            if p < l {
                assert(rows[p] < rows[l]);
            }
            assert(p == l);
            assert(rows[l] == (n - 1) as usize);
            let rest = rows.drop_last();
            assert forall|i: int| 0 <= i < prev.len() implies (rest.contains(i as usize) <==> prev[i] == key) by {
                if prev[i] == key {
                    assert(rows.contains(i as usize));
                    let q = choose|q: int| 0 <= q < rows.len() && rows[q] == i as usize;
                    assert(q != l);
                    assert(rest[q] == i as usize);
                }
                if rest.contains(i as usize) {
                    let q = choose|q: int| 0 <= q < rest.len() && rest[q] == i as usize;
                    assert(rows[q] == i as usize);
                }
            }
            assert forall|a: int| 0 <= a < rest.len() implies rest[a] < prev.len() by {
                assert(rows[a] < rows[l]);
            }
            lemma_sorted_rows_count(rest, prev, key);
        } else {
            assert forall|a: int| 0 <= a < rows.len() implies rows[a] < prev.len() by {
                if rows[a] == (n - 1) as usize {
                    assert(rows.contains((n - 1) as usize));
                }
            }
            assert forall|i: int| 0 <= i < prev.len() implies (rows.contains(i as usize) <==> prev[i] == key) by {
                assert(prev[i] == keys[i]);
            }
            lemma_sorted_rows_count(rows, prev, key);
        }
    }
}

proof fn lemma_grouped_is_key_sum<A>(
    results: Seq<CompactBorgerResult<A>>,
    keys: Seq<SegmentKey>,
    k: int,
    groups: Seq<SegmentGroup>,
)
    requires
        forall|g: int| 0 <= g < groups.len() ==> is_key_group(results, keys, k, #[trigger] groups[g]),
        keys.len() <= usize::MAX,
    ensures
        grouped_count(groups) == key_sum(keys, groups),
    decreases groups.len(),
{
    if groups.len() > 0 {
        let last = groups.last();
        assert(is_key_group(results, keys, k, groups[groups.len() - 1]));
        lemma_sorted_rows_count(last.rows@, keys, last.key);
        lemma_grouped_is_key_sum(results, keys, k, groups.drop_last());
    }
}

proof fn lemma_key_sum_step(keys: Seq<SegmentKey>, groups: Seq<SegmentGroup>)
    requires
        keys.len() > 0,
    ensures
        key_sum(keys, groups) == key_sum(keys.drop_last(), groups) + key_matches(groups, keys.last()),
    decreases groups.len(),
{
    if groups.len() > 0 {
        lemma_key_sum_step(keys, groups.drop_last());
    }
}

proof fn lemma_key_matches_one(groups: Seq<SegmentGroup>, x: SegmentKey)
    requires
        forall|g: int, h: int| 0 <= g < h < groups.len() ==> groups[g].key != groups[h].key,
    ensures
        key_matches(groups, x) == if exists|g: int| 0 <= g < groups.len() && (#[trigger] groups[g]).key == x {
            1nat
        } else {
            0nat
        },
    decreases groups.len(),
{
    if groups.len() > 0 {
        let prev = groups.drop_last();
        let l = groups.len() - 1;
        lemma_key_matches_one(prev, x);
        if groups[l].key == x {
            if exists|g: int| 0 <= g < prev.len() && (#[trigger] prev[g]).key == x {
                let g = choose|g: int| 0 <= g < prev.len() && (#[trigger] prev[g]).key == x;
                assert(groups[g].key != groups[l].key);
            }
        } else {
            if exists|g: int| 0 <= g < groups.len() && (#[trigger] groups[g]).key == x {
                let g = choose|g: int| 0 <= g < groups.len() && (#[trigger] groups[g]).key == x;
                assert(prev[g].key == x);
            }
        }
    }
}

proof fn lemma_key_sum_empty(keys: Seq<SegmentKey>, groups: Seq<SegmentGroup>)
    requires
        keys.len() == 0,
    ensures
        key_sum(keys, groups) == 0,
    decreases groups.len(),
{
    if groups.len() > 0 {
        lemma_key_sum_empty(keys, groups.drop_last());
    }
}

proof fn lemma_key_sum_covers(keys: Seq<SegmentKey>, groups: Seq<SegmentGroup>)
    requires
        forall|g: int, h: int| 0 <= g < h < groups.len() ==> groups[g].key != groups[h].key,
        forall|i: int|
            #![trigger keys[i]]
            0 <= i < keys.len() ==> exists|g: int| 0 <= g < groups.len() && (#[trigger] groups[g]).key == keys[i],
    ensures
        key_sum(keys, groups) == keys.len(),
    decreases keys.len(),
{
    if keys.len() > 0 {
        let prev = keys.drop_last();
        assert forall|i: int|
            #![trigger prev[i]]
            0 <= i < prev.len() implies exists|g: int| 0 <= g < groups.len() && (#[trigger] groups[g]).key == prev[i] by {
            assert(prev[i] == keys[i]);
        }
        lemma_key_sum_covers(prev, groups);
        lemma_key_sum_step(keys, groups);
        let x = keys[keys.len() - 1];
        assert(keys.last() == x);
        let g = choose|g: int| 0 <= g < groups.len() && (#[trigger] groups[g]).key == x;
        lemma_key_matches_one(groups, x);
        assert(groups[g].key == x);
        assert(key_matches(groups, x) == 1);
        assert(key_sum(prev, groups) == prev.len());
        assert(key_sum(keys, groups) == key_sum(prev, groups) + 1);
    } else {
        lemma_key_sum_empty(keys, groups);
    }
}

/// Every citizen falls in exactly one segment: the group sizes add up to the
/// number of citizens.
pub proof fn lemma_segments_cover_all<A>(
    results: Seq<CompactBorgerResult<A>>,
    keys: Seq<SegmentKey>,
    k: int,
    groups: Seq<SegmentGroup>,
)
    requires
        is_segmentation(results, keys, k, groups),
        keys.len() <= usize::MAX,
    ensures
        grouped_count(groups) == keys.len(),
{
    lemma_grouped_is_key_sum(results, keys, k, groups);
    lemma_key_sum_covers(keys, groups);
}

} // verus!
