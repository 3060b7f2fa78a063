//! Grading on packed words, with the whole bank in one 128-bit integer.

use vstd::prelude::*;
use crate::feedback::grade_of;
use crate::passes::{
    banked_left, banked_misses, greens_in, lemma_bank_miss, lemma_green_in16, lemma_passes_end,
    lemma_passes_start, lemma_passes_turn, lemma_read_position, lemma_yellow_step16,
    lemma_yellow_test16, marks_in,
};
use crate::{Grade, Word, BLACK, GREEN, N_GRADES, YELLOW};

verus! {

/// Grades a packed guess against a packed answer.
///
/// The first pass marks the greens and banks the answer's other letters; the
/// second hands out the yellows from the left.
pub fn grade(guess: Word, soln: Word) -> (grade: Grade)
    ensures
        grade == grade_of(guess, soln),
        grade < N_GRADES,
{
    let mut yellow_bank: u128 = 0;
    let mut grade: u16 = 0;
    let mut guess2: u32 = guess;
    let mut soln2: u32 = soln;
    proof {
        lemma_passes_start(guess, soln);
    }
    let mut k: u32 = 0;
    while k < 5
        invariant
            k <= 5,
            guess2 == guess >> ((5 * k) as u32),
            soln2 == soln >> ((5 * k) as u32),
            greens_in(grade as u32, guess, soln, k as int),
            banked_misses(yellow_bank, guess, soln, k as int),
        decreases 5 - k,
    {
        let ghost before = grade;
        proof {
            lemma_read_position(guess, soln, k as int);
            lemma_bank_miss(yellow_bank, guess, soln, k as int);
        }
        let matches_bottom_5 = (guess2 ^ soln2) & 0x1f == 0;
        if matches_bottom_5 {
            grade |= GREEN << 10;
        } else {
            let sc: u32 = soln2 & 0x1f;
            yellow_bank += 1u128 << ((3 * sc) as u128);
        }
        grade >>= 2;
        guess2 >>= 5;
        soln2 >>= 5;
        proof {
            lemma_green_in16(before, grade, guess, soln, k as int);
        }
        k += 1;
    }

    proof {
        lemma_passes_turn(grade as u32, yellow_bank, guess, soln);
    }
    let mut i: u32 = 0;
    while i < 5
        invariant
            i <= 5,
            marks_in(grade as u32, guess, soln, i as int),
            banked_left(yellow_bank, guess, soln, i as int),
        decreases 5 - i,
    {
        let ghost before = grade;
        let ghost bank_before = yellow_bank;
        proof {
            lemma_read_position(guess, soln, i as int);
            lemma_yellow_test16(grade, yellow_bank, guess, soln, i as int);
        }
        let c: u32 = (guess >> (5 * i)) & 0x1f;
        if grade & (0b11u16 << ((2 * i) as u16)) == BLACK {
            let nyellow: u128 = (yellow_bank >> ((3 * c) as u128)) & 0b111;
            if nyellow > 0 {
                yellow_bank -= 1u128 << ((3 * c) as u128);
                grade |= YELLOW << ((2 * i) as u16);
            }
        }
        proof {
            lemma_yellow_step16(before, grade, bank_before, yellow_bank, guess, soln, i as int);
        }
        i += 1;
    }
    proof {
        lemma_passes_end(grade as u32, guess, soln);
    }
    grade
}

} // verus!
