use vstd::prelude::*;

verus! {

/// The bucket count a histogram uses for a requested count: at least 2, at most 100.
pub open spec fn clamped_bucket_count(requested: usize) -> usize {
    if requested < 2 {
        2
    } else if requested > 100 {
        100
    } else {
        requested
    }
}

pub fn histogram_bucket_count(requested: usize) -> (n: usize)
    ensures
        n == clamped_bucket_count(requested),
{
    if requested < 2 {
        2
    } else if requested > 100 {
        100
    } else {
        requested
    }
}

/// The bucket a raw bucket index falls in: indices past the end go to the last bucket.
pub open spec fn bucket_of(idx: usize, bucket_count: usize) -> int {
    if idx < bucket_count - 1 {
        idx as int
    } else {
        bucket_count - 1
    }
}

/// How many of the first `n` raw indices fall in bucket `b`.
pub open spec fn bucket_tally(indices: Seq<usize>, bucket_count: usize, b: int, n: int) -> nat
    decreases n,
{
    if n <= 0 {
        0
    } else {
        bucket_tally(indices, bucket_count, b, n - 1) + if bucket_of(indices[n - 1], bucket_count) == b {
            1nat
        } else {
            0nat
        }
    }
}

/// Sum of the tallies of the buckets below `upto`.
pub open spec fn tally_below(indices: Seq<usize>, bucket_count: usize, n: int, upto: int) -> nat
    decreases upto,
{
    if upto <= 0 {
        0
    } else {
        tally_below(indices, bucket_count, n, upto - 1) + bucket_tally(indices, bucket_count, upto - 1, n)
    }
}

proof fn lemma_tally_below_step(indices: Seq<usize>, bucket_count: usize, n: int, upto: int)
    requires
        n >= 0,
    ensures
        tally_below(indices, bucket_count, n + 1, upto) == tally_below(indices, bucket_count, n, upto)
            + if 0 <= bucket_of(indices[n], bucket_count) < upto {
            1nat
        } else {
            0nat
        },
    decreases upto,
{
    if upto > 0 {
        lemma_tally_below_step(indices, bucket_count, n, upto - 1);
    }
}

proof fn lemma_tally_below_none(indices: Seq<usize>, bucket_count: usize, upto: int)
    ensures
        tally_below(indices, bucket_count, 0, upto) == 0,
    decreases upto,
{
    if upto > 0 {
        lemma_tally_below_none(indices, bucket_count, upto - 1);
    }
}

/// Every counted value lands in exactly one bucket: the bucket counts add up
/// to the number of values.
pub proof fn lemma_bucket_counts_total(indices: Seq<usize>, bucket_count: usize, n: int)
    requires
        bucket_count > 0,
        0 <= n <= indices.len(),
    ensures
        tally_below(indices, bucket_count, n, bucket_count as int) == n,
    decreases n,
{
    if n == 0 {
        lemma_tally_below_none(indices, bucket_count, bucket_count as int);
    } else {
        lemma_bucket_counts_total(indices, bucket_count, n - 1);
        lemma_tally_below_step(indices, bucket_count, n - 1, bucket_count as int);
    }
}

proof fn lemma_tally_filter(indices: Seq<usize>, bucket_count: usize, b: int, n: int, p: spec_fn(usize) -> bool)
    requires
        bucket_count > 0,
        0 <= n <= indices.len(),
        forall|r: usize|
            #[trigger] p(r) == ((b < bucket_count - 1 && r as int == b) || (b == bucket_count - 1 && r
                >= bucket_count - 1)),
    ensures
        bucket_tally(indices, bucket_count, b, n) == indices.take(n).filter(p).len(),
    decreases n,
{
    reveal(Seq::filter);
    if n > 0 {
        lemma_tally_filter(indices, bucket_count, b, n - 1, p);
        assert(indices.take(n).drop_last() =~= indices.take(n - 1));
        assert(indices.take(n).last() == indices[n - 1]);
    } else {
        assert(indices.take(0).len() == 0);
    }
}

/// A bucket below the last counts the values whose raw index is that bucket;
/// the last bucket counts every value whose raw index is at or past it.
pub proof fn lemma_bucket_tally_counts(indices: Seq<usize>, bucket_count: usize, b: int)
    requires
        bucket_count > 0,
        0 <= b < bucket_count,
    ensures
        bucket_tally(indices, bucket_count, b, indices.len() as int) == indices.filter(
            |r: usize| (b < bucket_count - 1 && r as int == b) || (b == bucket_count - 1 && r >= bucket_count - 1),
        ).len(),
{
    let p = |r: usize| (b < bucket_count - 1 && r as int == b) || (b == bucket_count - 1 && r >= bucket_count - 1);
    lemma_tally_filter(indices, bucket_count, b, indices.len() as int, p);
    assert(indices.take(indices.len() as int) =~= indices);
}

/// One more value adds exactly one to the bucket of its raw index, clamped
/// to the last bucket, and nothing to the others.
pub proof fn lemma_bucket_tally_push(indices: Seq<usize>, bucket_count: usize, b: int, r: usize)
    requires
        bucket_count > 0,
    ensures
        bucket_tally(indices.push(r), bucket_count, b, indices.len() + 1int) == bucket_tally(
            indices,
            bucket_count,
            b,
            indices.len() as int,
        ) + if (r < bucket_count - 1 && r as int == b) || (r >= bucket_count - 1 && b == bucket_count - 1) {
            1nat
        } else {
            0nat
        },
{
    lemma_tally_prefix_same(indices, r, bucket_count, b, indices.len() as int);
}

proof fn lemma_tally_prefix_same(indices: Seq<usize>, r: usize, bucket_count: usize, b: int, n: int)
    requires
        0 <= n <= indices.len(),
    ensures
        bucket_tally(indices.push(r), bucket_count, b, n) == bucket_tally(indices, bucket_count, b, n),
    decreases n,
{
    if n > 0 {
        lemma_tally_prefix_same(indices, r, bucket_count, b, n - 1);
        assert(indices.push(r)[n - 1] == indices[n - 1]);
    }
}

/// Counts the values per bucket, given each value's raw bucket index.
pub fn bucket_counts(indices: &[usize], bucket_count: usize) -> (counts: Vec<usize>)
    requires
        bucket_count > 0,
    ensures
        counts@.len() == bucket_count,
        forall|b: int|
            0 <= b < bucket_count ==> #[trigger] counts@[b] == bucket_tally(
                indices@,
                bucket_count,
                b,
                indices@.len() as int,
            ),
        forall|b: int|
            0 <= b < bucket_count ==> #[trigger] counts@[b] == indices@.filter(
                |r: usize| (b < bucket_count - 1 && r as int == b) || (b == bucket_count - 1 && r >= bucket_count - 1),
            ).len(),
{
    let mut counts: Vec<usize> = Vec::new();
    let mut b: usize = 0;
    while b < bucket_count
        invariant
            0 <= b <= bucket_count,
            counts@.len() == b,
            forall|c: int| 0 <= c < b ==> #[trigger] counts@[c] == 0,
        decreases bucket_count - b,
    {
        counts.push(0);
        b += 1;
    }
    let n = indices.len();
    let mut i: usize = 0;
    while i < n
        invariant
            n == indices@.len(),
            bucket_count > 0,
            counts@.len() == bucket_count,
            0 <= i <= n,
            forall|c: int|
                0 <= c < bucket_count ==> #[trigger] counts@[c] == bucket_tally(indices@, bucket_count, c, i as int),
            forall|c: int| 0 <= c < bucket_count ==> #[trigger] counts@[c] <= i,
        decreases n - i,
    {
        let raw = indices[i];
        let idx = if raw < bucket_count - 1 {
            raw
        } else {
            bucket_count - 1
        };
        counts.set(idx, counts[idx] + 1);
        i += 1;
    }
    proof {
        assert forall|b: int| 0 <= b < bucket_count implies #[trigger] counts@[b] == indices@.filter(
            |r: usize| (b < bucket_count - 1 && r as int == b) || (b == bucket_count - 1 && r >= bucket_count - 1),
        ).len() by {
            let p = |r: usize| (b < bucket_count - 1 && r as int == b) || (b == bucket_count - 1 && r >= bucket_count - 1);
            lemma_tally_filter(indices@, bucket_count, b, n as int, p);
            assert(indices@.take(n as int) =~= indices@);
        }
    }
    counts
}

} // verus!
