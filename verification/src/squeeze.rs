//! Grading on packed words, one pair at a time and in batches of a fixed
//! width. A batch keeps one bank per lane, split into three 32-bit segments of
//! ten letters each.

use vstd::prelude::*;
use crate::codec::valid_word;
use crate::feedback::{grade_of, lemma_grade_range};
use crate::passes::{
    banked_left, banked_misses, greens_in, lemma_bank_miss, lemma_green_in, lemma_green_in16,
    lemma_passes_end, lemma_passes_start, lemma_passes_turn, lemma_read_position,
    lemma_split_miss, lemma_split_step, lemma_split_test, lemma_split_turn, lemma_yellow_step16,
    lemma_yellow_test16, marks_in, segment_of, split_left, split_misses,
};
use crate::{Grade, Word, BLACK, GREEN, N_GRADES, YELLOW};

verus! {

/// Grades a packed guess against a packed answer.
///
/// The first pass marks the greens and banks the answer's other letters; the
/// second hands out the yellows from the left.
pub fn grade(guess: Word, soln: Word) -> (grade: Grade)
    ensures
        grade == grade_of(guess, soln),
        grade < N_GRADES,
{
    let mut yellow_bank: u128 = 0;
    let mut grade: u16 = 0;
    let mut guess2: u32 = guess;
    let mut soln2: u32 = soln;
    proof {
        lemma_passes_start(guess, soln);
    }
    let mut k: u32 = 0;
    while k < 5
        invariant
            k <= 5,
            guess2 == guess >> ((5 * k) as u32),
            soln2 == soln >> ((5 * k) as u32),
            greens_in(grade as u32, guess, soln, k as int),
            banked_misses(yellow_bank, guess, soln, k as int),
        decreases 5 - k,
    {
        let ghost before = grade;
        proof {
            lemma_read_position(guess, soln, k as int);
            lemma_bank_miss(yellow_bank, guess, soln, k as int);
        }
        let matches_bottom_5 = (guess2 ^ soln2) & 0x1f == 0;
        if matches_bottom_5 {
            grade |= GREEN << 10;
        } else {
            let sc: u32 = soln2 & 0x1f;
            yellow_bank += 1u128 << ((3 * sc) as u128);
        }
        grade >>= 2;
        guess2 >>= 5;
        soln2 >>= 5;
        proof {
            lemma_green_in16(before, grade, guess, soln, k as int);
        }
        k += 1;
    }

    proof {
        lemma_passes_turn(grade as u32, yellow_bank, guess, soln);
    }
    let mut i: u32 = 0;
    while i < 5
        invariant
            i <= 5,
            marks_in(grade as u32, guess, soln, i as int),
            banked_left(yellow_bank, guess, soln, i as int),
        decreases 5 - i,
    {
        let ghost before = grade;
        let ghost bank_before = yellow_bank;
        proof {
            lemma_read_position(guess, soln, i as int);
            lemma_yellow_test16(grade, yellow_bank, guess, soln, i as int);
        }
        let c: u32 = (guess >> (5 * i)) & 0x1f;
        if grade & (0b11u16 << ((2 * i) as u16)) == BLACK {
            let nyellow: u128 = (yellow_bank >> ((3 * c) as u128)) & 0b111;
            if nyellow > 0 {
                yellow_bank -= 1u128 << ((3 * c) as u128);
                grade |= YELLOW << ((2 * i) as u16);
            }
        }
        proof {
            lemma_yellow_step16(before, grade, bank_before, yellow_bank, guess, soln, i as int);
        }
        i += 1;
    }
    proof {
        lemma_passes_end(grade as u32, guess, soln);
    }
    grade
}

/// One of two values, chosen by a mask.
fn select(mask: bool, yes: u32, no: u32) -> (r: u32)
    ensures
        r == (if mask {
            yes
        } else {
            no
        }),
{
    if mask {
        yes
    } else {
        no
    }
}

/// Grades one lane of a batch, with the bank split into three segments:
/// letters 0 to 9, 10 to 19, and 20 upwards.
fn grade_lane(word: Word, soln: Word) -> (grade: u32)
    requires
        valid_word(word),
        valid_word(soln),
    ensures
        grade == grade_of(word, soln),
{
    let mut yellows: [u32; 3] = [0u32;3];
    let mut grade: u32 = 0;
    let mut guess2: u32 = word;
    let mut soln2: u32 = soln;
    proof {
        lemma_passes_start(word, soln);
        assert(yellows@ =~= seq![0u32, 0u32, 0u32]);
    }
    let mut k: u32 = 0;
    while k < 5
        invariant
            k <= 5,
            valid_word(soln),
            guess2 == word >> ((5 * k) as u32),
            soln2 == soln >> ((5 * k) as u32),
            greens_in(grade, word, soln, k as int),
            split_misses(yellows@, word, soln, k as int),
        decreases 5 - k,
    {
        let ghost before = grade;
        let ghost segs = yellows@;
        proof {
            lemma_read_position(word, soln, k as int);
            lemma_split_miss(yellows@, word, soln, k as int);
        }
        let matches_bottom_5 = (guess2 ^ soln2) & 0x1f == 0;
        grade |= select(matches_bottom_5, (GREEN as u32) << 10, BLACK as u32);
        let sc: u32 = soln2 & 0x1f;
        let is_first_ten = sc < 10;
        let is_ten_twenty = !is_first_ten && sc < 20;
        let is_last_ten = sc >= 20;
        if !matches_bottom_5 && is_first_ten {
            yellows[0] = yellows[0] + (1u32 << (3 * sc));
        }
        if !matches_bottom_5 && is_ten_twenty {
            yellows[1] = yellows[1] + (1u32 << (3 * (sc - 10)));
        }
        if !matches_bottom_5 && is_last_ten {
            yellows[2] = yellows[2] + (1u32 << (3 * (sc - 20)));
        }
        grade >>= 2;
        guess2 >>= 5;
        soln2 >>= 5;
        proof {
            lemma_green_in(before, grade, word, soln, k as int);
            if !matches_bottom_5 {
                let seg = segment_of(sc as int);
                assert(yellows@ =~= segs.update(seg, yellows@[seg]));
            }
        }
        k += 1;
    }

    proof {
        lemma_split_turn(grade, yellows@, word, soln);
    }
    let mut i: u32 = 0;
    while i < 5
        invariant
            i <= 5,
            valid_word(word),
            marks_in(grade, word, soln, i as int),
            split_left(yellows@, word, soln, i as int),
        decreases 5 - i,
    {
        let ghost before = grade;
        let ghost segs = yellows@;
        proof {
            lemma_read_position(word, soln, i as int);
            lemma_split_test(grade, yellows@, word, soln, i as int);
        }
        let c: u32 = (word >> (5 * i)) & 0x1f;
        let is_first_ten = c < 10;
        let is_ten_twenty = !is_first_ten && c < 20;
        let is_last_ten = c >= 20;
        let offset_c: u32 = if is_first_ten {
            c
        } else if is_ten_twenty {
            c - 10
        } else {
            c - 20
        };
        let needs_yellow = grade & (0b11u32 << (2 * i)) == BLACK as u32;
        let n_yellow: u32 = (select(
            is_first_ten,
            yellows[0],
            select(is_ten_twenty, yellows[1], yellows[2]),
        ) >> (3 * offset_c)) & 0b111;
        let got_yellow = needs_yellow && n_yellow > 0;

        grade |= select(got_yellow, (YELLOW as u32) << (2 * i), 0);

        let subs: u32 = 1u32 << (3 * offset_c);
        if got_yellow && is_first_ten {
            yellows[0] = yellows[0] - subs;
        }
        if got_yellow && is_ten_twenty {
            yellows[1] = yellows[1] - subs;
        }
        if got_yellow && is_last_ten {
            yellows[2] = yellows[2] - subs;
        }
        proof {
            if got_yellow {
                let seg = segment_of(c as int);
                assert(yellows@ =~= segs.update(seg, yellows@[seg]));
            }
            lemma_split_step(before, grade, segs, yellows@, word, soln, i as int);
        }
        i += 1;
    }
    proof {
        lemma_passes_end(grade, word, soln);
    }
    grade
}

/// Grades a batch of `L` guesses against `L` answers, lane by lane: lane `i`
/// of the result is the grade of guess `i` against answer `i`, the same value
/// that `grade` gives for that pair.
pub fn gradel<const L: usize>(words: [Word; L], solns: [Word; L]) -> (grades: [u32; L])
    requires
        forall|i: int| 0 <= i < L ==> valid_word(#[trigger] words@[i]),
        forall|i: int| 0 <= i < L ==> valid_word(#[trigger] solns@[i]),
    ensures
        forall|i: int| 0 <= i < L ==> #[trigger] grades@[i] == grade_of(words@[i], solns@[i]),
        forall|i: int| 0 <= i < L ==> #[trigger] grades@[i] < N_GRADES,
{
    let mut grades: [u32; L] = [0u32;L];
    let mut lane: usize = 0;
    while lane < L
        invariant
            lane <= L,
            forall|i: int| 0 <= i < L ==> valid_word(#[trigger] words@[i]),
            forall|i: int| 0 <= i < L ==> valid_word(#[trigger] solns@[i]),
            forall|i: int|
                0 <= i < lane ==> #[trigger] grades@[i] == grade_of(words@[i], solns@[i]),
            forall|i: int| 0 <= i < lane ==> #[trigger] grades@[i] < N_GRADES,
        decreases L - lane,
    {
        proof {
            lemma_grade_range(words@[lane as int], solns@[lane as int]);
        }
        grades[lane] = grade_lane(words[lane], solns[lane]);
        lane += 1;
    }
    grades
}

} // verus!
