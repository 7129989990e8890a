use vstd::prelude::*;

use crate::batch::types::{BatchResult, TopNEntry};
use crate::borger_store::BorgerStore;
use crate::rule_engine::{rule_index, rule_slot, RuleId};

verus! {

/// The keys of the rows in `s` never increase along `s`.
pub open spec fn sorted_by_key(keys: Seq<u64>, s: Seq<usize>) -> bool {
    forall|a: int, b: int|
        0 <= a < b < s.len() ==> keys[#[trigger] s[a] as int] >= keys[#[trigger] s[b] as int]
}

/// `s` holds distinct rows below `bound`.
pub open spec fn distinct_rows_below(s: Seq<usize>, bound: int) -> bool {
    &&& forall|a: int| 0 <= a < s.len() ==> #[trigger] s[a] < bound
    &&& forall|a: int, b: int| 0 <= a < b < s.len() ==> s[a] != s[b]
}

/// `ranked` holds the rows of the `n` largest keys (all rows when there are
/// fewer), each once, ordered from the largest key down; every row left out
/// has a key no larger than the last one taken.
pub open spec fn is_top_ranking(keys: Seq<u64>, n: nat, ranked: Seq<usize>) -> bool {
    &&& ranked.len() == if n < keys.len() {
        n
    } else {
        keys.len()
    }
    &&& distinct_rows_below(ranked, keys.len() as int)
    &&& sorted_by_key(keys, ranked)
    &&& forall|i: int|
        0 <= i < keys.len() && !ranked.contains(i as usize) && ranked.len() > 0 ==> #[trigger] keys[i]
            <= keys[ranked.last() as int]
}

/// Among rows with equal keys the earlier row is ranked first, and a row
/// among the first `i` left out of `ranked` comes after every ranked row with
/// its key.
pub open spec fn ties_by_row(keys: Seq<u64>, i: int, ranked: Seq<usize>) -> bool {
    &&& forall|a: int, b: int|
        0 <= a < b < ranked.len() && keys[#[trigger] ranked[a] as int] == keys[#[trigger] ranked[b] as int]
            ==> ranked[a] < ranked[b]
    &&& forall|j: int, a: int|
        0 <= j < i && !ranked.contains(j as usize) && 0 <= a < ranked.len() && #[trigger] keys[j] == keys[
            #[trigger] ranked[a] as int] ==> ranked[a] < j
}

/// The state of the ranking after the first `i` rows.
spec fn ranked_prefix(keys: Seq<u64>, n: nat, i: int, top: Seq<usize>) -> bool {
    &&& top.len() == if n < i {
        n as int
    } else {
        i
    }
    &&& distinct_rows_below(top, i)
    &&& sorted_by_key(keys, top)
    &&& forall|j: int|
        0 <= j < i && !top.contains(j as usize) ==> top.len() > 0 && #[trigger] keys[j]
            <= keys[top.last() as int]
    &&& top.len() < n ==> forall|j: int| 0 <= j < i ==> #[trigger] top.contains(j as usize)
    &&& ties_by_row(keys, i, top)
}

proof fn lemma_insert_ranked(keys: Seq<u64>, old: Seq<usize>, p: int, i: usize)
    requires
        0 <= p <= old.len(),
        i < keys.len(),
        sorted_by_key(keys, old),
        distinct_rows_below(old, i as int),
        forall|a: int| 0 <= a < p ==> keys[#[trigger] old[a] as int] >= keys[i as int],
        p < old.len() ==> keys[old[p] as int] < keys[i as int],
    ensures
        sorted_by_key(keys, old.insert(p, i)),
        distinct_rows_below(old.insert(p, i), i + 1),
        old.insert(p, i)[p] == i,
        forall|a: int| 0 <= a < p ==> old.insert(p, i)[a] == #[trigger] old[a],
        forall|a: int| p <= a < old.len() ==> old.insert(p, i)[a + 1] == #[trigger] old[a],
{
    let t = old.insert(p, i);
    assert forall|a: int| 0 <= a < t.len() implies #[trigger] t[a] < i + 1 by {
        if a < p {
            assert(t[a] == old[a]);
        } else if a > p {
            assert(t[a] == old[a - 1]);
        }
    }
    assert forall|a: int, b: int| 0 <= a < b < t.len() implies t[a] != t[b] by {
        if a < p && b < p {
            assert(t[a] == old[a] && t[b] == old[b]);
        } else if a < p && b > p {
            assert(t[a] == old[a] && t[b] == old[b - 1]);
        } else if a > p && b > p {
            assert(t[a] == old[a - 1] && t[b] == old[b - 1]);
        } else if a == p {
            assert(t[b] == old[b - 1]);
        } else {
            assert(t[a] == old[a]);
        }
    }
    assert forall|a: int, b: int|
        0 <= a < b < t.len() implies keys[#[trigger] t[a] as int] >= keys[#[trigger] t[b] as int] by {
        if a < p && b < p {
            assert(t[a] == old[a] && t[b] == old[b]);
        } else if a < p && b > p {
            assert(t[a] == old[a] && t[b] == old[b - 1]);
            assert(keys[old[a] as int] >= keys[i as int]);
            if b - 1 > p {
                assert(keys[old[p] as int] >= keys[old[b - 1] as int]);
            }
        } else if a > p && b > p {
            assert(t[a] == old[a - 1] && t[b] == old[b - 1]);
        } else if a == p {
            assert(t[b] == old[b - 1]);
            if b - 1 > p {
                assert(keys[old[p] as int] >= keys[old[b - 1] as int]);
            }
        } else {
            assert(t[a] == old[a]);
        }
    }
}

/// Taking row `i` while the ranking is not yet full keeps every row seen.
proof fn lemma_step_grow(keys: Seq<u64>, n: nat, old: Seq<usize>, p: int, i: usize)
    requires
        ranked_prefix(keys, n, i as int, old),
        old.len() < n,
        0 <= p <= old.len(),
        i < keys.len(),
        forall|a: int| 0 <= a < p ==> keys[#[trigger] old[a] as int] >= keys[i as int],
        p < old.len() ==> keys[old[p] as int] < keys[i as int],
    ensures
        ranked_prefix(keys, n, i + 1, old.insert(p, i)),
{
    lemma_insert_ranked(keys, old, p, i);
    let t = old.insert(p, i);
    assert forall|j: int| 0 <= j < i + 1 implies #[trigger] t.contains(j as usize) by {
        if j == i {
            assert(t[p] == i);
        } else {
            assert(old.contains(j as usize));
            let a = choose|a: int| 0 <= a < old.len() && old[a] == j as usize;
            if a < p {
                assert(t[a] == j as usize);
            } else {
                assert(t[a + 1] == j as usize);
            }
        }
    }
}

proof fn lemma_ties_replace(keys: Seq<u64>, old: Seq<usize>, p: int, i: usize)
    requires
        0 <= p < old.len(),
        i < keys.len(),
        sorted_by_key(keys, old),
        distinct_rows_below(old, i as int),
        ties_by_row(keys, i as int, old),
        keys[i as int] > keys[old.last() as int],
        forall|j: int|
            0 <= j < i && !old.contains(j as usize) ==> #[trigger] keys[j] <= keys[old.last() as int],
        forall|a: int| 0 <= a < p ==> keys[#[trigger] old[a] as int] >= keys[i as int],
        keys[old[p] as int] < keys[i as int],
    ensures
        ties_by_row(keys, i + 1, old.insert(p, i).drop_last()),
{
    let ins = old.insert(p, i);
    let t = ins.drop_last();
    let tl = old.len() as int;
    let old_last = old[tl - 1];
    assert forall|a: int| 0 <= a < t.len() implies (#[trigger] t[a] == i && a == p) || (a < p && t[a] == old[a]) || (
    a > p && t[a] == old[a - 1]) by {
        assert(t[a] == ins[a]);
    }
    assert forall|a: int, b: int|
        0 <= a < b < t.len() && keys[#[trigger] t[a] as int] == keys[#[trigger] t[b] as int] implies t[a] < t[b] by {
        if a == p {
            assert(t[b] == old[b - 1]);
            assert(keys[old[p] as int] >= keys[old[b - 1] as int] || b - 1 == p);
        } else if b == p {
            assert(t[a] == old[a]);
            assert(old[a] < i);
        } else if a < p && b < p {
            assert(t[a] == old[a] && t[b] == old[b]);
        } else if a < p {
            assert(t[a] == old[a] && t[b] == old[b - 1]);
        } else {
            assert(t[a] == old[a - 1] && t[b] == old[b - 1]);
        }
    }
    assert forall|j: int, a: int|
        0 <= j < i + 1 && !t.contains(j as usize) && 0 <= a < t.len() && #[trigger] keys[j] == keys[
            #[trigger] t[a] as int] implies t[a] < j by {
        if j == i {
            assert(t[p] == i);
        }
        if t[a] == i {
            if old.contains(j as usize) {
                let c = choose|c: int| 0 <= c < old.len() && old[c] == j as usize;
                if c < tl - 1 {
                    if c < p {
                        assert(t[c] == j as usize);
                    } else {
                        assert(t[c + 1] == j as usize);
                    }
                }
                assert(j as usize == old_last);
            }
        } else {
            let c = if a < p { a } else { a - 1 };
            assert(t[a] == old[c]);
            if old.contains(j as usize) {
                let d = choose|d: int| 0 <= d < old.len() && old[d] == j as usize;
                if d < tl - 1 {
                    if d < p {
                        assert(t[d] == j as usize);
                    } else {
                        assert(t[d + 1] == j as usize);
                    }
                }
                assert(d == tl - 1);
                assert(c < tl - 1);
                assert(old[c] < old[d]);
            }
        }
    }
}

/// Taking row `i` into a full ranking drops its last row.
#[verifier::rlimit(40)]
proof fn lemma_step_replace(keys: Seq<u64>, n: nat, old: Seq<usize>, p: int, i: usize)
    requires
        ranked_prefix(keys, n, i as int, old),
        old.len() == n,
        n > 0,
        0 <= p <= old.len(),
        i < keys.len(),
        keys[i as int] > keys[old.last() as int],
        forall|a: int| 0 <= a < p ==> keys[#[trigger] old[a] as int] >= keys[i as int],
        p < old.len() ==> keys[old[p] as int] < keys[i as int],
    ensures
        ranked_prefix(keys, n, i + 1, old.insert(p, i).drop_last()),
{
    lemma_insert_ranked(keys, old, p, i);
    let ins = old.insert(p, i);
    let t = ins.drop_last();
    let tl = old.len() as int;
    assert(p < tl) by {
        if p == tl {
            assert(keys[old[tl - 1] as int] >= keys[i as int]);
        }
    }
    lemma_ties_replace(keys, old, p, i);
    let old_last = old[tl - 1];
    assert(t.len() == tl);
    assert forall|a: int, b: int|
        0 <= a < b < t.len() implies keys[#[trigger] t[a] as int] >= keys[#[trigger] t[b] as int] by {
        assert(t[a] == ins[a] && t[b] == ins[b]);
    }
    assert forall|a: int| 0 <= a < t.len() implies #[trigger] t[a] < i + 1 by {
        assert(t[a] == ins[a]);
    }
    assert forall|a: int, b: int| 0 <= a < b < t.len() implies t[a] != t[b] by {
        assert(t[a] == ins[a] && t[b] == ins[b]);
    }
    assert(keys[t.last() as int] >= keys[old_last as int]) by {
        if p == tl - 1 {
            assert(t.last() == i);
        } else {
            assert(t.last() == old[tl - 2]);
        }
    }
    assert forall|j: int|
        0 <= j < i + 1 && !t.contains(j as usize) implies t.len() > 0 && #[trigger] keys[j]
            <= keys[t.last() as int] by {
        if j == i {
            assert(t[p] == i);
        } else if old.contains(j as usize) {
            let a = choose|a: int| 0 <= a < old.len() && old[a] == j as usize;
            if a < p {
                assert(t[a] == j as usize);
            } else if a < tl - 1 {
                assert(t[a + 1] == j as usize);
            } else {
                assert(j as usize == old_last);
            }
        }
    }
}

/// The rows with the `n` largest keys, largest first; among equal keys the
/// earlier row comes first.
pub fn rank_by_key(keys: &[u64], n: usize) -> (ranked: Vec<usize>)
    ensures
        is_top_ranking(keys@, n as nat, ranked@),
        ties_by_row(keys@, keys@.len() as int, ranked@),
{
    let len = keys.len();
    let mut top: Vec<usize> = Vec::new();
    if n == 0 {
        return top;
    }
    let mut i: usize = 0;
    while i < len
        invariant
            len == keys@.len(),
            0 < n,
            0 <= i <= len,
            ranked_prefix(keys@, n as nat, i as int, top@),
        decreases len - i,
    {
        let key = keys[i];
        let tl = top.len();
        if tl < n || key > keys[top[tl - 1]] {
            let mut p: usize = 0;
            while p < tl && keys[top[p]] >= key
                invariant
                    tl == top@.len(),
                    0 <= p <= tl,
                    distinct_rows_below(top@, i as int),
                    len == keys@.len(),
                    i < len,
                    key == keys@[i as int],
                    forall|a: int| 0 <= a < p ==> keys@[#[trigger] top@[a] as int] >= key,
                decreases tl - p,
            {
                p += 1;
            }
            let ghost old_top = top@;
            top.insert(p, i);
            if tl < n {
                proof {
                    lemma_step_grow(keys@, n as nat, old_top, p as int, i);
                }
            } else {
                let ghost ins = top@;
                let _ = top.pop();
                proof {
                    assert(top@ =~= ins.drop_last());
                    lemma_step_replace(keys@, n as nat, old_top, p as int, i);
                }
            }
        } else {
            proof {
                assert forall|j: int|
                    0 <= j < i + 1 && !top@.contains(j as usize) implies top@.len() > 0 && #[trigger] keys@[j]
                        <= keys@[top@.last() as int] by {
                }
            }
        }
        i += 1;
    }
    proof {
        assert forall|j: int|
            0 <= j < keys@.len() && !top@.contains(j as usize) && top@.len() > 0 implies #[trigger] keys@[j]
                <= keys@[top@.last() as int] by {
        }
    }
    top
}

/// The rows that a ranking of entries names, in order.
pub open spec fn entry_rows<A>(entries: Seq<TopNEntry<A>>) -> Seq<usize> {
    entries.map_values(|e: TopNEntry<A>| e.borger_index)
}

/// The `n` citizens with the largest amounts for a rule, largest first.
/// `keys[i]` ranks citizen `i`: a key that orders as the amounts do.
pub fn top_n<M, A: Copy>(
    store: &BorgerStore<M>,
    result: &BatchResult<A>,
    keys: &[u64],
    rule_id: RuleId,
    n: usize,
) -> (top: Vec<TopNEntry<A>>)
    requires
        result.wf(),
        keys@.len() == result.count,
        result.count <= store.borger_id@.len(),
    ensures
        is_top_ranking(keys@, n as nat, entry_rows(top@)),
        ties_by_row(keys@, keys@.len() as int, entry_rows(top@)),
        forall|j: int|
            0 <= j < top@.len() ==> {
                let e = #[trigger] top@[j];
                &&& e.borger_id == store.borger_id@[e.borger_index as int]
                &&& e.rule_id == rule_id
                &&& e.amount == result.borger_results@[e.borger_index as int].amounts@[rule_slot(rule_id)]
            },
{
    let ranked = rank_by_key(keys, n);
    let k = rule_index(rule_id);
    let m = ranked.len();
    let mut top: Vec<TopNEntry<A>> = Vec::new();
    let mut j: usize = 0;
    while j < m
        invariant
            m == ranked@.len(),
            0 <= j <= m,
            is_top_ranking(keys@, n as nat, ranked@),
            keys@.len() == result.count,
            result.wf(),
            result.count <= store.borger_id@.len(),
            k == rule_slot(rule_id),
            top@.len() == j,
            forall|a: int| 0 <= a < j ==> (#[trigger] top@[a]).borger_index == ranked@[a],
            forall|a: int|
                0 <= a < j ==> {
                    let e = #[trigger] top@[a];
                    &&& e.borger_id == store.borger_id@[e.borger_index as int]
                    &&& e.rule_id == rule_id
                    &&& e.amount == result.borger_results@[e.borger_index as int].amounts@[rule_slot(rule_id)]
                },
        decreases m - j,
    {
        let i = ranked[j];
        assert(i < keys@.len());
        top.push(
            TopNEntry {
                borger_index: i,
                borger_id: store.borger_id[i],
                rule_id,
                amount: result.borger_results[i].amounts[k],
            },
        );
        j += 1;
    }
    assert(entry_rows(top@) =~= ranked@);
    top
}

} // verus!
