//! Sorting a set of candidate answers by the grade that a guess gets against
//! each: the histogram of the grades, and the candidates bucket by bucket.

use vstd::prelude::*;
use crate::codec::valid_word;
use crate::feedback::{grade_of, lemma_grade_range};
use crate::squeeze::{grade, gradel};
use crate::{Word, N_GRADES};

verus! {

/// The first `n` candidates that give the guess the grade `g`, in the order
/// in which they stand.
pub open spec fn bucket(word: Word, solns: Seq<Word>, g: int, n: int) -> Seq<Word>
    decreases n,
{
    if n <= 0 {
        Seq::empty()
    } else if grade_of(word, solns[n - 1]) == g {
        bucket(word, solns, g, n - 1).push(solns[n - 1])
    } else {
        bucket(word, solns, g, n - 1)
    }
}

/// How many of the first `n` candidates give the guess the grade `g`.
pub open spec fn tally(word: Word, solns: Seq<Word>, g: int, n: int) -> nat {
    bucket(word, solns, g, n).len()
}

/// Every candidate of a set is a well-formed word.
pub open spec fn valid_words(solns: Seq<Word>) -> bool {
    forall|i: int| 0 <= i < solns.len() ==> valid_word(#[trigger] solns[i])
}

/// The histogram of a guess over a set of candidates: for each grade, how
/// many candidates give the guess that grade.
pub open spec fn histogram(word: Word, solns: Seq<Word>) -> Seq<nat> {
    Seq::new(N_GRADES as nat, |g: int| tally(word, solns, g, solns.len() as int))
}

/// Machine counts as numbers.
pub open spec fn as_nats(counts: Seq<usize>) -> Seq<nat> {
    Seq::new(counts.len(), |i: int| counts[i] as nat)
}

/// The sum of the first `m` counts.
pub open spec fn total(counts: Seq<nat>, m: int) -> nat
    decreases m,
{
    if m <= 0 {
        0
    } else {
        total(counts, m - 1) + counts[m - 1]
    }
}

/// Those of the first `m` counts that are above one, in their order: the
/// buckets that leave a candidate in doubt.
pub open spec fn crowded(counts: Seq<nat>, m: int) -> Seq<nat>
    decreases m,
{
    if m <= 0 {
        Seq::empty()
    } else if counts[m - 1] > 1 {
        crowded(counts, m - 1).push(counts[m - 1])
    } else {
        crowded(counts, m - 1)
    }
}

/// What a second guess makes of the first `m` buckets of a pool: for each
/// bucket with more than one candidate, in the order of the buckets, the size
/// of the bucket and its crowded tallies under the second guess.
pub open spec fn refinement(w1: Word, pool: Seq<Seq<Word>>, m: int) -> Seq<(nat, Seq<nat>)>
    decreases m,
{
    if m <= 0 {
        Seq::empty()
    } else if pool[m - 1].len() > 1 {
        refinement(w1, pool, m - 1).push(
            (pool[m - 1].len(), crowded(histogram(w1, pool[m - 1]), N_GRADES as int)),
        )
    } else {
        refinement(w1, pool, m - 1)
    }
}

/// What a second guess makes of a pool: for each bucket that holds more than
/// one candidate, the size of the bucket and its crowded tallies.
pub type Parts = Vec<(usize, Vec<usize>)>;

/// Sizes and tallies as numbers.
pub open spec fn parts_view(parts: Seq<(usize, Vec<usize>)>) -> Seq<(nat, Seq<nat>)> {
    Seq::new(parts.len(), |k: int| (parts[k].0 as nat, as_nats(parts[k].1@)))
}

/// The candidates sorted by the grade that they give the guess: one bucket
/// per grade, each in the candidates' order.
pub open spec fn partition(w0: Word, answers: Seq<Word>) -> Seq<Seq<Word>> {
    Seq::new(N_GRADES as nat, |g: int| bucket(w0, answers, g, answers.len() as int))
}

/// The buckets of a pool as sequences of words.
pub open spec fn pool_view(pool: Seq<Vec<Word>>) -> Seq<Seq<Word>> {
    Seq::new(pool.len(), |b: int| pool[b]@)
}

/// Every candidate in every bucket of a pool is a well-formed word.
pub open spec fn valid_pool(pool: Seq<Seq<Word>>) -> bool {
    forall|b: int| 0 <= b < pool.len() ==> valid_words(#[trigger] pool[b])
}

/// A bucket of well-formed words holds well-formed words.
pub proof fn lemma_bucket_keeps_valid(word: Word, solns: Seq<Word>, g: int, n: int)
    requires
        0 <= n <= solns.len(),
        valid_words(solns),
    ensures
        valid_words(bucket(word, solns, g, n)),
    decreases n,
{
    if n > 0 {
        lemma_bucket_keeps_valid(word, solns, g, n - 1);
    }
}

/// No bucket holds more than the candidates looked at.
pub proof fn lemma_tally_bound(word: Word, solns: Seq<Word>, g: int, n: int)
    requires
        0 <= n,
    ensures
        tally(word, solns, g, n) <= n,
    decreases n,
{
    if n > 0 {
        lemma_tally_bound(word, solns, g, n - 1);
    }
}

/// The sum over the grades below `m` of the candidates among the first `n`
/// that give the guess that grade.
pub open spec fn mass(word: Word, solns: Seq<Word>, n: int, m: int) -> nat
    decreases m,
{
    if m <= 0 {
        0
    } else {
        mass(word, solns, n, m - 1) + tally(word, solns, m - 1, n)
    }
}

proof fn lemma_mass_step(word: Word, solns: Seq<Word>, n: int, m: int)
    requires
        0 < n,
        0 <= m,
    ensures
        mass(word, solns, n, m) == mass(word, solns, n - 1, m) + (if grade_of(word, solns[n - 1])
            < m {
            1nat
        } else {
            0nat
        }),
    decreases m,
{
    lemma_grade_range(word, solns[n - 1]);
    if m > 0 {
        lemma_mass_step(word, solns, n, m - 1);
    }
}

/// Every candidate falls into exactly one bucket: over all grades, the
/// buckets of the first `n` candidates hold `n` candidates.
pub proof fn lemma_mass_is_count(word: Word, solns: Seq<Word>, n: int)
    requires
        0 <= n,
    ensures
        mass(word, solns, n, N_GRADES as int) == n,
    decreases n,
{
    if n > 0 {
        lemma_mass_is_count(word, solns, n - 1);
        lemma_mass_step(word, solns, n, N_GRADES as int);
        lemma_grade_range(word, solns[n - 1]);
    } else {
        lemma_mass_empty(word, solns, n, N_GRADES as int);
    }
}

proof fn lemma_mass_empty(word: Word, solns: Seq<Word>, n: int, m: int)
    requires
        n <= 0,
        0 <= m,
    ensures
        mass(word, solns, n, m) == 0,
    decreases m,
{
    if m > 0 {
        lemma_mass_empty(word, solns, n, m - 1);
    }
}

proof fn lemma_total_is_mass(word: Word, solns: Seq<Word>, m: int)
    requires
        0 <= m <= N_GRADES,
    ensures
        total(histogram(word, solns), m) == mass(word, solns, solns.len() as int, m),
    decreases m,
{
    if m > 0 {
        lemma_total_is_mass(word, solns, m - 1);
    }
}

/// The counts of a histogram add up to the number of candidates.
pub proof fn lemma_histogram_mass(word: Word, solns: Seq<Word>)
    ensures
        total(histogram(word, solns), N_GRADES as int) == solns.len(),
{
    lemma_total_is_mass(word, solns, N_GRADES as int);
    lemma_mass_is_count(word, solns, solns.len() as int);
}

/// Counts, for each grade, the candidates that give the guess that grade.
///
/// The bulk of the candidates is graded in batches of `L`, what is left over
/// one by one.
pub fn grade_histogram<const L: usize>(word: Word, solns: &[Word]) -> (counts: [usize; N_GRADES])
    requires
        valid_word(word),
        valid_words(solns@),
    ensures
        as_nats(counts@) == histogram(word, solns@),
        total(as_nats(counts@), N_GRADES as int) == solns@.len(),
{
    let mut counts: [usize; N_GRADES] = [0usize;N_GRADES];
    let n: usize = solns.len();
    let mut k: usize = 0;
    if L > 0 {
        let words: [Word; L] = [word;L];
        let mut answers: [Word; L] = [word;L];
        while n - k >= L
            invariant
                k <= n,
                n == solns@.len(),
                L > 0,
                valid_word(word),
                valid_words(solns@),
                forall|i: int| 0 <= i < L ==> #[trigger] words@[i] == word,
                forall|i: int| 0 <= i < L ==> valid_word(#[trigger] answers@[i]),
                forall|g: int|
                    0 <= g < N_GRADES ==> #[trigger] counts@[g] == tally(word, solns@, g, k as int),
            decreases n - k,
        {
            let mut lane: usize = 0;
            while lane < L
                invariant
                    lane <= L,
                    k + L <= n,
                    n == solns@.len(),
                    valid_words(solns@),
                    forall|i: int| 0 <= i < L ==> valid_word(#[trigger] answers@[i]),
                    forall|i: int| 0 <= i < lane ==> #[trigger] answers@[i] == solns@[k + i],
                decreases L - lane,
            {
                answers[lane] = solns[k + lane];
                lane += 1;
            }
            let grades: [u32; L] = gradel(words, answers);
            lane = 0;
            while lane < L
                invariant
                    lane <= L,
                    k + L <= n,
                    n == solns@.len(),
                    forall|i: int| 0 <= i < L ==> #[trigger] answers@[i] == solns@[k + i],
                    forall|i: int|
                        0 <= i < L ==> #[trigger] grades@[i] == grade_of(word, answers@[i]),
                    forall|g: int|
                        0 <= g < N_GRADES ==> #[trigger] counts@[g] == tally(
                            word,
                            solns@,
                            g,
                            k + lane,
                        ),
                decreases L - lane,
            {
                let graded: usize = grades[lane] as usize;
                proof {
                    lemma_grade_range(word, solns@[k + lane]);
                    lemma_tally_bound(word, solns@, graded as int, k + lane);
                    assert(answers@[lane as int] == solns@[k + lane]);
                }
                counts[graded] = counts[graded] + 1;
                lane += 1;
            }
            k += L;
        }
    }
    while k < n
        invariant
            k <= n,
            n == solns@.len(),
            forall|g: int|
                0 <= g < N_GRADES ==> #[trigger] counts@[g] == tally(word, solns@, g, k as int),
        decreases n - k,
    {
        let graded: usize = grade(word, solns[k]) as usize;
        proof {
            lemma_grade_range(word, solns@[k as int]);
            lemma_tally_bound(word, solns@, graded as int, k as int);
        }
        counts[graded] = counts[graded] + 1;
        k += 1;
    }
    proof {
        assert(as_nats(counts@) =~= histogram(word, solns@));
        lemma_histogram_mass(word, solns@);
    }
    counts
}

/// Picks out of a histogram the counts above one, in the order of their
/// grades. A bucket with one candidate or none leaves nothing in doubt.
pub fn crowded_counts(counts: &[usize; N_GRADES]) -> (crowd: Vec<usize>)
    ensures
        as_nats(crowd@) == crowded(as_nats(counts@), N_GRADES as int),
{
    let mut crowd: Vec<usize> = Vec::new();
    let mut g: usize = 0;
    while g < N_GRADES
        invariant
            g <= N_GRADES,
            as_nats(crowd@) == crowded(as_nats(counts@), g as int),
        decreases N_GRADES - g,
    {
        let ghost before = as_nats(crowd@);
        let n: usize = counts[g];
        if n > 1 {
            crowd.push(n);
            assert(as_nats(crowd@) =~= before.push(n as nat));
        }
        g += 1;
    }
    crowd
}

/// For a guess and a set of candidates, the sizes of the buckets that hold
/// more than one candidate, in the order of their grades.
pub fn crowded_tallies<const L: usize>(word: Word, solns: &[Word]) -> (crowd: Vec<usize>)
    requires
        valid_word(word),
        valid_words(solns@),
    ensures
        as_nats(crowd@) == crowded(histogram(word, solns@), N_GRADES as int),
{
    let counts = grade_histogram::<L>(word, solns);
    crowded_counts(&counts)
}

/// Holds a second guess against a pool that a first guess has sorted: for
/// each bucket with more than one candidate, in the order of the buckets, the
/// size of the bucket and its crowded tallies under the second guess.
pub fn refine<const L: usize>(w1: Word, pool: &Vec<Vec<Word>>) -> (parts: Parts)
    requires
        valid_word(w1),
        valid_pool(pool_view(pool@)),
    ensures
        parts_view(parts@) == refinement(w1, pool_view(pool@), pool@.len() as int),
{
    let ghost buckets = pool_view(pool@);
    let mut parts: Parts = Vec::new();
    let mut b: usize = 0;
    assert(parts_view(parts@) =~= refinement(w1, buckets, 0));
    while b < pool.len()
        invariant
            b <= pool@.len(),
            buckets == pool_view(pool@),
            valid_word(w1),
            valid_pool(buckets),
            parts_view(parts@) == refinement(w1, buckets, b as int),
        decreases pool@.len() - b,
    {
        let ghost before = parts_view(parts@);
        let size: usize = pool[b].len();
        proof {
            assert(buckets[b as int] == pool@[b as int]@);
            assert(valid_words(buckets[b as int]));
        }
        if size > 1 {
            let crowd = crowded_tallies::<L>(w1, pool[b].as_slice());
            let ghost tallies = as_nats(crowd@);
            parts.push((size, crowd));
            assert(parts_view(parts@) =~= before.push((size as nat, tallies)));
        }
        b += 1;
    }
    parts
}

/// Sorts the candidates into one bucket per grade: bucket `g` receives, in
/// their order, the candidates that give the guess `w0` the grade `g`.
///
/// The pool is brought to one bucket per grade and emptied first; it keeps
/// its storage, so one pool serves many guesses in turn.
pub fn partition_by_grade(w0: Word, answers: &[Word], pool: &mut Vec<Vec<Word>>)
    ensures
        pool_view(final(pool)@) == partition(w0, answers@),
        valid_words(answers@) ==> valid_pool(pool_view(final(pool)@)),
{
    pool.truncate(N_GRADES);
    while pool.len() < N_GRADES
        invariant
            pool.len() <= N_GRADES,
        decreases N_GRADES - pool.len(),
    {
        pool.push(Vec::new());
    }
    let mut g: usize = 0;
    while g < N_GRADES
        invariant
            g <= N_GRADES,
            pool.len() == N_GRADES,
            forall|h: int| 0 <= h < g ==> (#[trigger] pool@[h])@ == Seq::<Word>::empty(),
        decreases N_GRADES - g,
    {
        pool[g].clear();
        g += 1;
    }
    let n: usize = answers.len();
    let mut k: usize = 0;
    while k < n
        invariant
            k <= n,
            n == answers@.len(),
            pool.len() == N_GRADES,
            forall|h: int|
                0 <= h < N_GRADES ==> (#[trigger] pool@[h])@ == bucket(w0, answers@, h, k as int),
        decreases n - k,
    {
        let answer: Word = answers[k];
        let graded: usize = grade(w0, answer) as usize;
        proof {
            lemma_grade_range(w0, answer);
        }
        pool[graded].push(answer);
        k += 1;
    }
    proof {
        assert(pool_view(pool@) =~= partition(w0, answers@));
        if valid_words(answers@) {
            assert forall|b: int| 0 <= b < N_GRADES implies valid_words(
                #[trigger] pool_view(pool@)[b],
            ) by {
                lemma_bucket_keeps_valid(w0, answers@, b, answers@.len() as int);
            }
        }
    }
}

} // verus!
