//! Why a first guess never hurts: sorting the candidates by a first guess
//! and judging a second guess bucket by bucket leaves no more doubt than
//! judging the second guess on all candidates at once.
//!
//! Doubt is measured by a weight on bucket sizes. The law holds for every
//! weight that is zero on empty and single buckets and gives a merged bucket
//! at least the weight of its two parts; `n * log2(n)` is such a weight.

use vstd::prelude::*;
use crate::feedback::{grade_of, lemma_grade_range};
use crate::tally::{
    bucket, crowded, histogram, lemma_tally_bound, partition, refinement, tally,
};
use crate::{Word, N_GRADES};

verus! {

/// The sum of the weights of the first `m` counts.
pub open spec fn weight_sum(f: spec_fn(nat) -> int, counts: Seq<nat>, m: int) -> int
    decreases m,
{
    if m <= 0 {
        0
    } else {
        weight_sum(f, counts, m - 1) + f(counts[m - 1])
    }
}

/// The doubt that a guess leaves on a set of candidates: the weights of the
/// buckets of its histogram, summed.
pub open spec fn doubt(f: spec_fn(nat) -> int, word: Word, solns: Seq<Word>) -> int {
    weight_sum(f, histogram(word, solns), N_GRADES as int)
}

/// The doubt that a second guess leaves on the first `m` buckets of a pool,
/// bucket by bucket, buckets of one candidate or none left out.
pub open spec fn refined_doubt(
    f: spec_fn(nat) -> int,
    w1: Word,
    pool: Seq<Seq<Word>>,
    m: int,
) -> int
    decreases m,
{
    if m <= 0 {
        0
    } else {
        refined_doubt(f, w1, pool, m - 1) + (if pool[m - 1].len() > 1 {
            doubt(f, w1, pool[m - 1])
        } else {
            0
        })
    }
}

/// A bucket of `a + b` candidates weighs at least as much as one of `a` and
/// one of `b` together.
pub open spec fn merge_adds(f: spec_fn(nat) -> int, a: nat, b: nat) -> bool {
    f(a) + f(b) <= f(a + b)
}

/// A weight that is zero on empty and single buckets, and on a merged bucket
/// at least the sum of the weights of the parts.
pub open spec fn superadditive(f: spec_fn(nat) -> int) -> bool {
    &&& f(0) == 0
    &&& f(1) == 0
    &&& forall|a: nat, b: nat| #[trigger] merge_adds(f, a, b)
}

/// The first `n` candidates whose grade under `w0` is below `m`, in their
/// order.
spec fn below(w0: Word, all: Seq<Word>, m: int, n: int) -> Seq<Word>
    decreases n,
{
    if n <= 0 {
        Seq::empty()
    } else if grade_of(w0, all[n - 1]) < m {
        below(w0, all, m, n - 1).push(all[n - 1])
    } else {
        below(w0, all, m, n - 1)
    }
}

/// How many candidates of a whole sequence give the guess the grade `h`.
spec fn count(word: Word, s: Seq<Word>, h: int) -> nat {
    tally(word, s, h, s.len() as int)
}

proof fn lemma_bucket_of_prefix(word: Word, s: Seq<Word>, t: Seq<Word>, h: int, n: int)
    requires
        0 <= n <= s.len(),
        n <= t.len(),
        forall|i: int| 0 <= i < n ==> s[i] == t[i],
    ensures
        bucket(word, s, h, n) == bucket(word, t, h, n),
    decreases n,
{
    if n > 0 {
        lemma_bucket_of_prefix(word, s, t, h, n - 1);
    }
}

proof fn lemma_count_push(word: Word, s: Seq<Word>, x: Word, h: int)
    ensures
        count(word, s.push(x), h) == count(word, s, h) + (if grade_of(word, x) == h {
            1nat
        } else {
            0nat
        }),
{
    lemma_bucket_of_prefix(word, s.push(x), s, h, s.len() as int);
    assert(s.push(x)[s.len() as int] == x);
}

proof fn lemma_count_splits(w0: Word, w1: Word, all: Seq<Word>, m: int, h: int, n: int)
    requires
        0 <= n <= all.len(),
    ensures
        count(w1, below(w0, all, m + 1, n), h) == count(w1, below(w0, all, m, n), h) + count(
            w1,
            bucket(w0, all, m, n),
            h,
        ),
    decreases n,
{
    if n > 0 {
        lemma_count_splits(w0, w1, all, m, h, n - 1);
        let x = all[n - 1];
        lemma_count_push(w1, below(w0, all, m + 1, n - 1), x, h);
        lemma_count_push(w1, below(w0, all, m, n - 1), x, h);
        lemma_count_push(w1, bucket(w0, all, m, n - 1), x, h);
    }
}

proof fn lemma_weight_splits(
    f: spec_fn(nat) -> int,
    w0: Word,
    w1: Word,
    all: Seq<Word>,
    m: int,
    k: int,
)
    requires
        superadditive(f),
        0 <= k <= N_GRADES,
    ensures
        weight_sum(f, histogram(w1, below(w0, all, m, all.len() as int)), k) + weight_sum(
            f,
            histogram(w1, bucket(w0, all, m, all.len() as int)),
            k,
        ) <= weight_sum(f, histogram(w1, below(w0, all, m + 1, all.len() as int)), k),
    decreases k,
{
    if k > 0 {
        lemma_weight_splits(f, w0, w1, all, m, k - 1);
        let n = all.len() as int;
        lemma_count_splits(w0, w1, all, m, k - 1, n);
        let a = count(w1, below(w0, all, m, n), k - 1);
        let b = count(w1, bucket(w0, all, m, n), k - 1);
        assert(merge_adds(f, a, b));
        assert(histogram(w1, below(w0, all, m, n))[k - 1] == a);
        assert(histogram(w1, bucket(w0, all, m, n))[k - 1] == b);
        assert(histogram(w1, below(w0, all, m + 1, n))[k - 1] == a + b);
    }
}

proof fn lemma_small_set_no_doubt(f: spec_fn(nat) -> int, word: Word, solns: Seq<Word>, k: int)
    requires
        superadditive(f),
        solns.len() <= 1,
        0 <= k <= N_GRADES,
    ensures
        weight_sum(f, histogram(word, solns), k) == 0,
    decreases k,
{
    if k > 0 {
        lemma_small_set_no_doubt(f, word, solns, k - 1);
        lemma_tally_bound(word, solns, k - 1, solns.len() as int);
        assert(histogram(word, solns)[k - 1] == tally(word, solns, k - 1, solns.len() as int));
    }
}

proof fn lemma_below_all(w0: Word, all: Seq<Word>, n: int)
    requires
        0 <= n <= all.len(),
    ensures
        below(w0, all, N_GRADES as int, n) == all.take(n),
    decreases n,
{
    if n > 0 {
        lemma_below_all(w0, all, n - 1);
        lemma_grade_range(w0, all[n - 1]);
        assert(all.take(n - 1).push(all[n - 1]) =~= all.take(n));
    } else {
        assert(all.take(0) =~= Seq::<Word>::empty());
    }
}

proof fn lemma_refined_below(f: spec_fn(nat) -> int, w0: Word, w1: Word, all: Seq<Word>, m: int)
    requires
        superadditive(f),
        0 <= m <= N_GRADES,
    ensures
        refined_doubt(f, w1, partition(w0, all), m) <= doubt(
            f,
            w1,
            below(w0, all, m, all.len() as int),
        ),
    decreases m,
{
    let n = all.len() as int;
    if m > 0 {
        lemma_refined_below(f, w0, w1, all, m - 1);
        lemma_weight_splits(f, w0, w1, all, m - 1, N_GRADES as int);
        let part = bucket(w0, all, m - 1, n);
        assert(partition(w0, all)[m - 1] == part);
        if part.len() <= 1 {
            lemma_small_set_no_doubt(f, w1, part, N_GRADES as int);
        }
    } else {
        lemma_empty_below(w0, all, n);
        lemma_small_set_no_doubt(f, w1, below(w0, all, 0, n), N_GRADES as int);
    }
}

proof fn lemma_empty_below(w0: Word, all: Seq<Word>, n: int)
    requires
        0 <= n <= all.len(),
    ensures
        below(w0, all, 0, n).len() == 0,
    decreases n,
{
    if n > 0 {
        lemma_empty_below(w0, all, n - 1);
        lemma_grade_range(w0, all[n - 1]);
    }
}

/// Sorting the candidates by a first guess `w0` and summing the doubt that a
/// second guess `w1` leaves on each bucket never gives more than the doubt
/// that `w1` leaves on all candidates together. Divided by the number of
/// candidates, the left side is the score of the pair and the right side the
/// score of `w1` alone.
pub proof fn lemma_refinement_never_adds(
    f: spec_fn(nat) -> int,
    w0: Word,
    w1: Word,
    all: Seq<Word>,
)
    requires
        superadditive(f),
    ensures
        refined_doubt(f, w1, partition(w0, all), N_GRADES as int) <= doubt(f, w1, all),
{
    lemma_refined_below(f, w0, w1, all, N_GRADES as int);
    lemma_below_all(w0, all, all.len() as int);
    assert(all.take(all.len() as int) =~= all);
}

/// How many candidates in the first `m` buckets of a pool give the guess
/// the grade `h`.
pub open spec fn pooled_tally(w1: Word, pool: Seq<Seq<Word>>, h: int, m: int) -> nat
    decreases m,
{
    if m <= 0 {
        0
    } else {
        pooled_tally(w1, pool, h, m - 1) + tally(w1, pool[m - 1], h, pool[m - 1].len() as int)
    }
}

proof fn lemma_pooled_below(w0: Word, w1: Word, all: Seq<Word>, h: int, m: int)
    requires
        0 <= m <= N_GRADES,
    ensures
        pooled_tally(w1, partition(w0, all), h, m) == count(
            w1,
            below(w0, all, m, all.len() as int),
            h,
        ),
    decreases m,
{
    let n = all.len() as int;
    if m > 0 {
        lemma_pooled_below(w0, w1, all, h, m - 1);
        lemma_count_splits(w0, w1, all, m - 1, h, n);
        assert(partition(w0, all)[m - 1] == bucket(w0, all, m - 1, n));
    } else {
        lemma_empty_below(w0, all, n);
    }
}

/// For a fixed second guess, each count of the histogram over all candidates
/// is the sum of that count over the buckets of a first guess.
pub proof fn lemma_histogram_adds_over_buckets(w0: Word, w1: Word, all: Seq<Word>, h: int)
    ensures
        pooled_tally(w1, partition(w0, all), h, N_GRADES as int) == tally(
            w1,
            all,
            h,
            all.len() as int,
        ),
{
    lemma_pooled_below(w0, w1, all, h, N_GRADES as int);
    lemma_below_all(w0, all, all.len() as int);
    assert(all.take(all.len() as int) =~= all);
}

/// The doubt in the first `m` parts of a refinement: the weights of their
/// crowded tallies, summed.
pub open spec fn parts_doubt(f: spec_fn(nat) -> int, parts: Seq<(nat, Seq<nat>)>, m: int) -> int
    decreases m,
{
    if m <= 0 {
        0
    } else {
        parts_doubt(f, parts, m - 1) + weight_sum(f, parts[m - 1].1, parts[m - 1].1.len() as int)
    }
}

proof fn lemma_weight_sum_of_prefix(f: spec_fn(nat) -> int, s: Seq<nat>, t: Seq<nat>, m: int)
    requires
        0 <= m <= s.len(),
        m <= t.len(),
        forall|k: int| 0 <= k < m ==> s[k] == t[k],
    ensures
        weight_sum(f, s, m) == weight_sum(f, t, m),
    decreases m,
{
    if m > 0 {
        lemma_weight_sum_of_prefix(f, s, t, m - 1);
    }
}

proof fn lemma_parts_doubt_of_prefix(
    f: spec_fn(nat) -> int,
    s: Seq<(nat, Seq<nat>)>,
    t: Seq<(nat, Seq<nat>)>,
    m: int,
)
    requires
        0 <= m <= s.len(),
        m <= t.len(),
        forall|k: int| 0 <= k < m ==> s[k] == t[k],
    ensures
        parts_doubt(f, s, m) == parts_doubt(f, t, m),
    decreases m,
{
    if m > 0 {
        lemma_parts_doubt_of_prefix(f, s, t, m - 1);
    }
}

/// Buckets of one candidate or none weigh nothing, so the crowded counts
/// carry all the doubt of a histogram.
pub proof fn lemma_crowded_carry_the_doubt(f: spec_fn(nat) -> int, counts: Seq<nat>, m: int)
    requires
        f(0) == 0,
        f(1) == 0,
        0 <= m,
    ensures
        weight_sum(f, crowded(counts, m), crowded(counts, m).len() as int) == weight_sum(
            f,
            counts,
            m,
        ),
    decreases m,
{
    if m > 0 {
        lemma_crowded_carry_the_doubt(f, counts, m - 1);
        let before = crowded(counts, m - 1);
        if counts[m - 1] > 1 {
            lemma_weight_sum_of_prefix(f, before.push(counts[m - 1]), before, before.len() as int);
        }
    }
}

/// The parts that a second guess makes of a pool carry the doubt that it
/// leaves on the pool, bucket by bucket.
pub proof fn lemma_parts_carry_the_doubt(
    f: spec_fn(nat) -> int,
    w1: Word,
    pool: Seq<Seq<Word>>,
    m: int,
)
    requires
        f(0) == 0,
        f(1) == 0,
        0 <= m,
    ensures
        parts_doubt(f, refinement(w1, pool, m), refinement(w1, pool, m).len() as int)
            == refined_doubt(f, w1, pool, m),
    decreases m,
{
    if m > 0 {
        lemma_parts_carry_the_doubt(f, w1, pool, m - 1);
        let before = refinement(w1, pool, m - 1);
        if pool[m - 1].len() > 1 {
            let part = (pool[m - 1].len(), crowded(histogram(w1, pool[m - 1]), N_GRADES as int));
            lemma_parts_doubt_of_prefix(f, before.push(part), before, before.len() as int);
            lemma_crowded_carry_the_doubt(f, histogram(w1, pool[m - 1]), N_GRADES as int);
        }
    }
}

/// The same law over the numbers that the counting hands out: the weights of
/// the parts that the second guess makes of the first guess's buckets never
/// add up to more than the weights of the second guess's own crowded tallies
/// over all candidates.
pub proof fn lemma_refined_parts_never_add(
    f: spec_fn(nat) -> int,
    w0: Word,
    w1: Word,
    all: Seq<Word>,
)
    requires
        superadditive(f),
    ensures
        ({
            let parts = refinement(w1, partition(w0, all), N_GRADES as int);
            let alone = crowded(histogram(w1, all), N_GRADES as int);
            parts_doubt(f, parts, parts.len() as int) <= weight_sum(f, alone, alone.len() as int)
        }),
{
    lemma_refinement_never_adds(f, w0, w1, all);
    lemma_parts_carry_the_doubt(f, w1, partition(w0, all), N_GRADES as int);
    lemma_crowded_carry_the_doubt(f, histogram(w1, all), N_GRADES as int);
}

} // verus!
