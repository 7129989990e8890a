use vstd::prelude::*;

use crate::borger_store::BorgerStore;

verus! {

/// Number of municipalities; their ids run from 1 to 98.
pub const KOMMUNE_COUNT: usize = 98;

/// Number of citizens in municipality `k`.
pub open spec fn population_of(ids: Seq<u8>, k: int) -> nat
    decreases ids.len(),
{
    if ids.len() == 0 {
        0
    } else {
        population_of(ids.drop_last(), k) + if ids.last() as int == k {
            1nat
        } else {
            0nat
        }
    }
}

/// Total population of the municipalities with ids below `upto`.
pub open spec fn population_below(ids: Seq<u8>, upto: int) -> nat
    decreases upto,
{
    if upto <= 0 {
        0
    } else {
        population_below(ids, upto - 1) + population_of(ids, upto - 1)
    }
}

proof fn lemma_population_below_push(ids: Seq<u8>, x: u8, upto: int)
    ensures
        population_below(ids.push(x), upto) == population_below(ids, upto) + if 0 <= x < upto {
            1nat
        } else {
            0nat
        },
    decreases upto,
{
    assert(ids.push(x).drop_last() =~= ids);
    if upto > 0 {
        lemma_population_below_push(ids, x, upto - 1);
    }
}

proof fn lemma_population_below_empty(ids: Seq<u8>, upto: int)
    requires
        ids.len() == 0,
    ensures
        population_below(ids, upto) == 0,
    decreases upto,
{
    if upto > 0 {
        lemma_population_below_empty(ids, upto - 1);
    }
}

/// Every citizen lives in exactly one municipality id below 256: the
/// populations add up to the number of citizens.
pub proof fn lemma_populations_total(ids: Seq<u8>)
    ensures
        population_below(ids, 256) == ids.len(),
    decreases ids.len(),
{
    if ids.len() == 0 {
        lemma_population_below_empty(ids, 256);
    } else {
        let init = ids.drop_last();
        lemma_populations_total(init);
        lemma_population_below_push(init, ids.last(), 256);
        assert(init.push(ids.last()) =~= ids);
    }
}

/// Population of every municipality id.
pub fn compute_kommune_populations<M>(store: &BorgerStore<M>) -> (pops: [usize; 256])
    ensures
        forall|k: int| 0 <= k < 256 ==> #[trigger] pops@[k] == population_of(store.kommune_id@, k),
{
    let n = store.kommune_id.len();
    let mut pops: [usize; 256] = [0; 256];
    let mut i: usize = 0;
    while i < n
        invariant
            n == store.kommune_id@.len(),
            0 <= i <= n,
            forall|k: int|
                0 <= k < 256 ==> #[trigger] pops@[k] == population_of(store.kommune_id@.take(i as int), k),
            forall|k: int| 0 <= k < 256 ==> #[trigger] pops@[k] <= i,
        decreases n - i,
    {
        assert(store.kommune_id@.take(i + 1).drop_last() =~= store.kommune_id@.take(i as int));
        let kid = store.kommune_id[i] as usize;
        pops[kid] = pops[kid] + 1;
        i += 1;
    }
    assert(store.kommune_id@.take(n as int) =~= store.kommune_id@);
    pops
}

/// Whether a citizen of municipality `kid` passes an optional municipality filter.
pub open spec fn passes_filter(kid: u8, kommune: Option<u8>) -> bool {
    match kommune {
        Some(k) => kid == k,
        None => true,
    }
}

/// A municipality filter passes exactly the citizens of that municipality;
/// no filter passes everyone.
pub proof fn lemma_filter_matches_municipality(kid: u8, kommune: Option<u8>)
    ensures
        kommune matches Some(k) ==> (passes_filter(kid, kommune) <==> kid == k),
        kommune is None ==> passes_filter(kid, kommune),
{
}

/// The rows below `count` whose municipality passes the filter, ascending.
pub fn filter_rows(kommune_ids: &[u8], count: usize, kommune: Option<u8>) -> (rows: Vec<usize>)
    requires
        count <= kommune_ids@.len(),
    ensures
        forall|a: int, b: int| 0 <= a < b < rows@.len() ==> rows@[a] < rows@[b],
        forall|a: int| 0 <= a < rows@.len() ==> rows@[a] < count,
        forall|i: int| 0 <= i < count ==> (rows@.contains(i as usize) <==> passes_filter(#[trigger] kommune_ids@[i], kommune)),
        kommune matches Some(k) ==> forall|i: int|
            0 <= i < count ==> (rows@.contains(i as usize) <==> #[trigger] kommune_ids@[i] == k),
        kommune is None ==> forall|i: int| 0 <= i < count ==> #[trigger] rows@.contains(i as usize),
        kommune is None ==> rows@.len() == count,
{
    let mut rows: Vec<usize> = Vec::new();
    let mut i: usize = 0;
    while i < count
        invariant
            count <= kommune_ids@.len(),
            0 <= i <= count,
            forall|a: int, b: int| 0 <= a < b < rows@.len() ==> rows@[a] < rows@[b],
            forall|a: int| 0 <= a < rows@.len() ==> rows@[a] < i,
            forall|j: int| 0 <= j < i ==> (rows@.contains(j as usize) <==> passes_filter(#[trigger] kommune_ids@[j], kommune)),
            kommune is None ==> rows@.len() == i,
        decreases count - i,
    {
        let pass = match kommune {
            Some(k) => kommune_ids[i] == k,
            None => true,
        };
        let ghost before = rows@;
        if pass {
            rows.push(i);
        }
        proof {
            assert forall|j: int| 0 <= j < i + 1 implies (rows@.contains(j as usize) <==> passes_filter(#[trigger] kommune_ids@[j], kommune)) by {
                if j < i {
                    if before.contains(j as usize) {
                        let x = choose|x: int| 0 <= x < before.len() && before[x] == j as usize;
                        assert(rows@[x] == j as usize);
                    }
                    if rows@.contains(j as usize) {
                        let x = choose|x: int| 0 <= x < rows@.len() && rows@[x] == j as usize;
                        if x < before.len() {
                            assert(before[x] == j as usize);
                        }
                    }
                } else {
                    if pass {
                        assert(rows@[before.len() as int] == i);
                    } else if rows@.contains(j as usize) {
                        let x = choose|x: int| 0 <= x < rows@.len() && rows@[x] == j as usize;
                    }
                }
            }
        }
        i += 1;
    }
    proof {
        if kommune is None {
            assert forall|i: int| 0 <= i < count implies #[trigger] rows@.contains(i as usize) by {
                assert(passes_filter(kommune_ids@[i], kommune));
            }
        }
    }
    rows
}

} // verus!
