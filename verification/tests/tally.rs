use wordle::squeeze::grade;
use wordle::tally::{crowded_counts, crowded_tallies, grade_histogram, partition_by_grade, refine};
use wordle::{is_word, word_from_str, Word, N_GRADES};

fn word(s: &str) -> Word {
    word_from_str(s.as_bytes()).unwrap()
}

fn sample() -> Vec<Word> {
    [
        "roses", "hores", "eppee", "blobo", "gleeg", "dwarf", "wefts", "lowes", "horse", "aahed",
        "zzzzz", "queue", "horse", "shore", "house",
    ]
    .iter()
    .map(|s| word(s))
    .collect()
}

#[test]
fn histogram_counts_every_candidate_once() {
    let solns = sample();
    for &guess in &solns {
        let counts = grade_histogram::<4>(guess, &solns);
        assert_eq!(counts.len(), N_GRADES);
        assert_eq!(counts.iter().sum::<usize>(), solns.len());
    }
}

#[test]
fn histogram_bucket_values() {
    let solns = sample();
    let counts = grade_histogram::<8>(word("horse"), &solns);
    // "horse" stands twice in the sample
    assert_eq!(counts[0b1010101010], 2);
    // "roses" is the only candidate with this grade against "horse"
    let roses = grade(word("horse"), word("roses")) as usize;
    assert_eq!(counts[roses], 1);
    let expected: usize = solns
        .iter()
        .filter(|&&a| grade(word("horse"), a) == 0)
        .count();
    assert_eq!(counts[0], expected);
}

#[test]
fn histogram_is_the_same_at_every_width() {
    let solns = sample();
    for &guess in &solns {
        let base = grade_histogram::<1>(guess, &solns);
        assert_eq!(grade_histogram::<0>(guess, &solns), base);
        assert_eq!(grade_histogram::<2>(guess, &solns), base);
        assert_eq!(grade_histogram::<4>(guess, &solns), base);
        assert_eq!(grade_histogram::<8>(guess, &solns), base);
        assert_eq!(grade_histogram::<16>(guess, &solns), base);
        assert_eq!(grade_histogram::<32>(guess, &solns), base);
        assert_eq!(grade_histogram::<64>(guess, &solns), base);
        for g in 0..N_GRADES {
            let expected = solns.iter().filter(|&&a| grade(guess, a) as usize == g).count();
            assert_eq!(base[g], expected);
        }
    }
}

#[test]
fn histogram_of_no_candidates_is_empty() {
    let counts = grade_histogram::<8>(word("horse"), &[]);
    assert!(counts.iter().all(|&n| n == 0));
}

#[test]
fn one_word_against_itself_fills_one_bucket_with_one() {
    let counts = grade_histogram::<8>(word("horse"), &[word("horse")]);
    assert_eq!(counts[0b1010101010], 1);
    assert_eq!(counts.iter().filter(|&&n| n > 1).count(), 0);
    assert_eq!(counts.iter().sum::<usize>(), 1);
}

#[test]
fn a_guess_that_tells_two_answers_apart_leaves_no_shared_bucket() {
    let solns = [word("horse"), word("roses")];
    let counts = grade_histogram::<2>(word("horse"), &solns);
    assert_eq!(counts.iter().filter(|&&n| n > 1).count(), 0);
    assert_eq!(counts.iter().filter(|&&n| n == 1).count(), 2);
}

#[test]
fn partition_keeps_order_within_each_bucket() {
    let solns = sample();
    let mut pool: Vec<Vec<Word>> = Vec::new();
    for &guess in &solns {
        partition_by_grade(guess, &solns, &mut pool);
        assert_eq!(pool.len(), N_GRADES);
        for g in 0..N_GRADES {
            let expected: Vec<Word> = solns
                .iter()
                .copied()
                .filter(|&a| grade(guess, a) as usize == g)
                .collect();
            assert_eq!(pool[g], expected);
        }
        let counts = grade_histogram::<4>(guess, &solns);
        for g in 0..N_GRADES {
            assert_eq!(pool[g].len(), counts[g]);
        }
    }
}

#[test]
fn partition_empties_what_the_pool_held() {
    let mut pool: Vec<Vec<Word>> = vec![vec![1, 2, 3]; N_GRADES + 5];
    partition_by_grade(word("horse"), &[word("horse"), word("horse")], &mut pool);
    assert_eq!(pool.len(), N_GRADES);
    assert_eq!(pool[0b1010101010], vec![word("horse"), word("horse")]);
    assert_eq!(pool.iter().map(|b| b.len()).sum::<usize>(), 2);
}

#[test]
fn refining_by_a_first_guess_keeps_each_grade_count() {
    // for a fixed second guess, the histogram over all candidates is the sum
    // of the histograms over the buckets of the first guess
    let solns = sample();
    let first = word("roses");
    let second = word("dwarf");
    let mut pool: Vec<Vec<Word>> = Vec::new();
    partition_by_grade(first, &solns, &mut pool);
    let whole = grade_histogram::<4>(second, &solns);
    let mut summed = [0usize; N_GRADES];
    for bucket in &pool {
        let part = grade_histogram::<4>(second, bucket);
        for g in 0..N_GRADES {
            summed[g] += part[g];
        }
    }
    assert_eq!(summed, whole);
}

fn score(word: Word, solns: &[Word]) -> f32 {
    crowded_tallies::<4>(word, solns)
        .into_iter()
        .map(|n| (n as f32).log2() * n as f32)
        .sum::<f32>()
        / solns.len() as f32
}

#[test]
fn crowded_counts_keeps_counts_above_one_in_order() {
    let mut counts = [0usize; N_GRADES];
    counts[0] = 1;
    counts[3] = 5;
    counts[4] = 2;
    counts[100] = 1;
    counts[682] = 7;
    assert_eq!(crowded_counts(&counts), vec![5, 2, 7]);
    assert_eq!(crowded_counts(&[0usize; N_GRADES]), Vec::<usize>::new());
    assert_eq!(crowded_counts(&[1usize; N_GRADES]), Vec::<usize>::new());
}

#[test]
fn one_word_one_answer_scores_zero() {
    let horse = word("horse");
    assert_eq!(crowded_tallies::<8>(horse, &[horse]), Vec::<usize>::new());
    assert_eq!(score(horse, &[horse]), 0.0);
}

#[test]
fn two_answers_told_apart_score_zero() {
    let solns = [word("horse"), word("roses")];
    assert_eq!(crowded_tallies::<1>(word("horse"), &solns), Vec::<usize>::new());
    assert_eq!(score(word("horse"), &solns), 0.0);
}

#[test]
fn score_of_shared_buckets() {
    // both answers give the same grade: one bucket of two, 2 * log2(2) / 2
    let twice = [word("horse"), word("horse")];
    assert_eq!(crowded_tallies::<2>(word("horse"), &twice), vec![2]);
    assert_eq!(score(word("horse"), &twice), 1.0);
    // against "zzzzz" four answers without a z are all black, "zzzzz" is apart
    let solns = [
        word("horse"),
        word("roses"),
        word("zzzzz"),
        word("dwarf"),
        word("aahed"),
    ];
    assert_eq!(crowded_tallies::<4>(word("zzzzz"), &solns), vec![4]);
    assert_eq!(score(word("zzzzz"), &solns), 8.0 / 5.0);
}

#[test]
fn refine_reports_crowded_buckets_in_grade_order() {
    let solns = sample();
    let first = word("zzzzz");
    let second = word("horse");
    let mut pool: Vec<Vec<Word>> = Vec::new();
    partition_by_grade(first, &solns, &mut pool);
    // all but "zzzzz" itself are black against "zzzzz"
    assert_eq!(pool[0].len(), solns.len() - 1);
    assert_eq!(pool[0b1010101010], vec![first]);
    let parts = refine::<4>(second, &pool);
    assert_eq!(parts.len(), 1);
    assert_eq!(parts[0].0, solns.len() - 1);
    assert_eq!(parts[0].1, crowded_tallies::<4>(second, &pool[0]));
    // "horse" stands twice among them and shares its bucket with nothing else
    assert!(parts[0].1.contains(&2));

    let expected: Vec<(usize, Vec<usize>)> = {
        partition_by_grade(second, &solns, &mut pool);
        pool.iter()
            .filter(|b| b.len() > 1)
            .map(|b| (b.len(), crowded_tallies::<1>(first, b)))
            .collect()
    };
    assert_eq!(refine::<8>(first, &pool), expected);
}

#[test]
fn refining_leaves_no_more_doubt() {
    let solns = sample();
    let mut pool: Vec<Vec<Word>> = Vec::new();
    for &first in &solns {
        partition_by_grade(first, &solns, &mut pool);
        for &second in &solns {
            let weigh = |n: usize| n * n;
            let whole: usize = crowded_tallies::<4>(second, &solns).into_iter().map(weigh).sum();
            let refined: usize = refine::<4>(second, &pool)
                .into_iter()
                .map(|(_, crowd)| crowd.into_iter().map(weigh).sum::<usize>())
                .sum();
            assert!(refined <= whole);
        }
    }
}

#[test]
fn is_word_tells_letters_from_other_fields() {
    assert!(is_word(0));
    assert!(is_word(word("zzzzz")));
    assert!(is_word(5800643));
    assert!(!is_word(26));
    assert!(!is_word(31 << 10));
    assert!(!is_word(1 << 25));
    assert!(!is_word(u32::MAX));
}
