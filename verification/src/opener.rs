//! The search for a pair of opening guesses, one first guess at a time.
//!
//! The words stand in a ranking, each with its own score, the best first. A
//! first guess is paired with the words ranked before it, in their order,
//! until a bound says that no later one can do better. How scores are
//! computed and compared is the caller's matter: the score is any type, and
//! the bound and the scoring are functions that the caller hands in.

use vstd::prelude::*;
use crate::codec::valid_word;
use crate::tally::{
    partition, partition_by_grade, parts_view, pool_view, refine, refinement, valid_pool,
    valid_words, Parts,
};
use crate::Word;

verus! {

/// `score` is a score that `residual` gives to the second guess `w1` on the
/// pool: its result on the refinement of the pool by `w1`.
pub open spec fn scored<S, R: Fn(&Parts) -> S>(
    residual: R,
    w1: Word,
    pool: Seq<Seq<Word>>,
    score: S,
) -> bool {
    exists|parts: Parts|
        #[trigger] parts_view(parts@) == refinement(w1, pool, pool.len() as int) && call_ensures(
            residual,
            (&parts,),
            score,
        )
}

/// Every word of a ranking before place `i` is well-formed.
pub open spec fn valid_before<S>(ranked: Seq<(Word, S)>, i: int) -> bool {
    forall|j: int| 0 <= j < i ==> valid_word((#[trigger] ranked[j]).0)
}

/// Pairs the first guess at place `i` of the ranking with the words before
/// it, in their order, as second guesses.
///
/// The candidates are sorted into the pool by the first guess. Then, for each
/// earlier word in turn: if `pruned` says of the two words' own scores that
/// the bound is reached, the pairing ends there; else the pair is recorded
/// with the score that `residual` gives to the pool refined by the second
/// guess.
pub fn pair_up<const L: usize, S, P: Fn(&S, &S) -> bool, R: Fn(&Parts) -> S>(
    ranked: &[(Word, S)],
    i: usize,
    answers: &[Word],
    pool: &mut Vec<Vec<Word>>,
    pruned: P,
    residual: R,
) -> (found: Vec<((Word, Word), S)>)
    requires
        i < ranked@.len(),
        valid_before(ranked@, i as int),
        valid_words(answers@),
        forall|e0: &S, e1: &S| call_requires(pruned, (e0, e1)),
        forall|parts: &Parts| call_requires(residual, (parts,)),
    ensures
        pool_view(final(pool)@) == partition(ranked@[i as int].0, answers@),
        found@.len() <= i,
        forall|j: int|
            0 <= j < found@.len() ==> {
                &&& (#[trigger] found@[j]).0 == (ranked@[i as int].0, ranked@[j].0)
                &&& call_ensures(pruned, (&ranked@[i as int].1, &ranked@[j].1), false)
                &&& scored(
                    residual,
                    ranked@[j].0,
                    partition(ranked@[i as int].0, answers@),
                    found@[j].1,
                )
            },
        found@.len() < i ==> call_ensures(
            pruned,
            (&ranked@[i as int].1, &ranked@[found@.len() as int].1),
            true,
        ),
{
    let w0: Word = ranked[i].0;
    partition_by_grade(w0, answers, pool);
    let ghost sorted = partition(w0, answers@);
    let mut found: Vec<((Word, Word), S)> = Vec::new();
    let mut j: usize = 0;
    while j < i
        invariant
            j <= i,
            i < ranked@.len(),
            w0 == ranked@[i as int].0,
            valid_before(ranked@, i as int),
            sorted == partition(w0, answers@),
            pool_view(pool@) == sorted,
            valid_pool(sorted),
            forall|e0: &S, e1: &S| call_requires(pruned, (e0, e1)),
            forall|parts: &Parts| call_requires(residual, (parts,)),
            found@.len() == j,
            forall|k: int|
                0 <= k < j ==> {
                    &&& (#[trigger] found@[k]).0 == (w0, ranked@[k].0)
                    &&& call_ensures(pruned, (&ranked@[i as int].1, &ranked@[k].1), false)
                    &&& scored(residual, ranked@[k].0, sorted, found@[k].1)
                },
        decreases i - j,
    {
        if pruned(&ranked[i].1, &ranked[j].1) {
            return found;
        }
        let w1: Word = ranked[j].0;
        assert(valid_word(ranked@[j as int].0));
        let parts = refine::<L>(w1, pool);
        let score = residual(&parts);
        assert(scored(residual, w1, sorted, score)) by {
            assert(parts_view(parts@) == refinement(w1, sorted, sorted.len() as int));
        }
        found.push(((w0, w1), score));
        j += 1;
    }
    found
}

} // verus!
