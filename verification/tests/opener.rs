use std::cell::Cell;

use wordle::opener::pair_up;
use wordle::squeeze::grade;
use wordle::tally::{partition_by_grade, refine, Parts};
use wordle::{word_from_str, Word, N_GRADES};

fn word(s: &str) -> Word {
    word_from_str(s.as_bytes()).unwrap()
}

fn answers() -> Vec<Word> {
    ["roses", "hores", "eppee", "blobo", "gleeg", "dwarf", "wefts", "lowes", "horse", "shore"]
        .iter()
        .map(|s| word(s))
        .collect()
}

fn ranking() -> Vec<(Word, u64)> {
    vec![
        (word("roses"), 10),
        (word("horse"), 20),
        (word("dwarf"), 30),
        (word("gleeg"), 40),
        (word("zzzzz"), 50),
    ]
}

fn squares(parts: &Parts) -> u64 {
    parts
        .iter()
        .map(|(size, crowd)| {
            *size as u64 * 1000 + crowd.iter().map(|&n| (n * n) as u64).sum::<u64>()
        })
        .sum()
}

#[test]
fn first_place_has_no_second_guess() {
    let mut pool = Vec::new();
    let never = |_: &u64, _: &u64| false;
    let found = pair_up::<4, u64, _, _>(&ranking(), 0, &answers(), &mut pool, never, squares);
    assert!(found.is_empty());
    assert_eq!(pool.len(), N_GRADES);
    // one word alone: no pair, and the pool holds the candidates by its grades
    let alone = [(word("horse"), 0u64)];
    let found = pair_up::<4, u64, _, _>(&alone, 0, &[word("horse")], &mut pool, never, squares);
    assert!(found.is_empty());
    assert_eq!(pool[0b1010101010], vec![word("horse")]);
}

#[test]
fn pairs_with_every_earlier_word_in_order() {
    let ranked = ranking();
    let solns = answers();
    let mut pool = Vec::new();
    let found = pair_up::<4, u64, _, _>(&ranked, 4, &solns, &mut pool, |_, _| false, squares);
    assert_eq!(found.len(), 4);
    let mut expected_pool: Vec<Vec<Word>> = Vec::new();
    partition_by_grade(ranked[4].0, &solns, &mut expected_pool);
    assert_eq!(pool, expected_pool);
    for (j, ((w0, w1), score)) in found.iter().enumerate() {
        assert_eq!(*w0, ranked[4].0);
        assert_eq!(*w1, ranked[j].0);
        assert_eq!(*score, squares(&refine::<1>(ranked[j].0, &expected_pool)));
    }
}

#[test]
fn pool_is_sorted_by_the_first_guess() {
    let ranked = ranking();
    let solns = answers();
    let mut pool = Vec::new();
    pair_up::<2, u64, _, _>(&ranked, 2, &solns, &mut pool, |_, _| true, squares);
    for g in 0..N_GRADES {
        let expected: Vec<Word> = solns
            .iter()
            .copied()
            .filter(|&a| grade(ranked[2].0, a) as usize == g)
            .collect();
        assert_eq!(pool[g], expected);
    }
}

#[test]
fn stops_at_the_first_word_that_reaches_the_bound() {
    let ranked = ranking();
    let solns = answers();
    let mut pool = Vec::new();
    let asked = Cell::new(0);
    let scored = Cell::new(0);
    // first guess at place 3 has score 40; the bound is reached from 40 + 30 on
    let found = pair_up::<8, u64, _, _>(
        &ranked,
        3,
        &solns,
        &mut pool,
        |e0, e1| {
            assert_eq!(*e0, 40);
            asked.set(asked.get() + 1);
            e0 + e1 >= 70
        },
        |parts| {
            scored.set(scored.get() + 1);
            squares(parts)
        },
    );
    assert_eq!(found.len(), 2);
    assert_eq!(found[0].0, (word("gleeg"), word("roses")));
    assert_eq!(found[1].0, (word("gleeg"), word("horse")));
    assert_eq!(asked.get(), 3);
    assert_eq!(scored.get(), 2);
}

#[test]
fn a_bound_reached_at_once_records_nothing() {
    let mut pool = Vec::new();
    let found = pair_up::<4, u64, _, _>(&ranking(), 4, &answers(), &mut pool, |_, _| true, squares);
    assert!(found.is_empty());
}

#[test]
fn scores_may_be_floats() {
    let ranked: Vec<(Word, f32)> = vec![(word("horse"), 0.5), (word("roses"), 1.5)];
    let solns = [word("horse"), word("horse"), word("roses")];
    let total = solns.len() as f32;
    let mut pool = Vec::new();
    let found = pair_up::<4, f32, _, _>(
        &ranked,
        1,
        &solns,
        &mut pool,
        |e0, e1| e0 - (total.log2() - e1) >= 10.0,
        |parts| {
            parts
                .iter()
                .flat_map(|(_, crowd)| crowd.iter())
                .map(|&n| (n as f32).log2() * n as f32)
                .sum::<f32>()
                / total
        },
    );
    // "roses" leaves the two "horse" together, and "horse" cannot part them
    assert_eq!(found, vec![((word("roses"), word("horse")), 2.0 / 3.0)]);
}
