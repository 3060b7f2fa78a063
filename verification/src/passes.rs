//! The two passes of grading on packed words, step by step: what the grade
//! under construction and the packed bank hold after each position, and why
//! each step of the code keeps it so.
//!
//! The first pass goes through the positions, shifts a green or nothing into
//! the grade from above and banks the answer's letter where the position is
//! not green. The second pass goes through the positions again and turns a
//! position that is not green yellow if the bank has its letter.

use vstd::prelude::*;
use crate::bits::{
    bank_count, bank_fits, lemma_bank_empty, lemma_bank_put, lemma_bank_take, lemma_field_is_black,
    lemma_grade16_shift_in, lemma_grade16_yellow, lemma_grade_empty, lemma_grade_is_sum,
    lemma_or_nothing, lemma_same_low_letter, lemma_seg_empty, lemma_seg_put, lemma_seg_take,
    lemma_set_mark, lemma_shift_by_letters, lemma_shift_in, mark_field, seg_fits, split_count,
};
use crate::codec::{letter, letters, valid_word};
use crate::feedback::{
    bank_left, grade_of, green_at, lemma_bank_left_step, lemma_grade_range, lemma_misses_bound,
    mark_at, misses,
};
use crate::{Word, N_GRADES};

verus! {

/// Position `k` is green: guess and answer hold the same letter there.
pub open spec fn is_green(guess: Word, soln: Word, k: int) -> bool {
    letter(guess, k) == letter(soln, k)
}

/// The grade after `k` positions of the first pass: the greens of those
/// positions stand in its highest `k` fields, the rest is empty.
pub open spec fn greens_in(grade: u32, guess: Word, soln: Word, k: int) -> bool {
    &&& grade >> 10 == 0
    &&& forall|j: int|
        0 <= j < 5 ==> #[trigger] mark_field(grade, j) == (if j + k >= 5 {
            green_at(guess, soln, j + k - 5)
        } else {
            0
        })
}

/// The grade after `i` positions of the second pass: those positions have
/// their marks, the others their green or nothing.
pub open spec fn marks_in(grade: u32, guess: Word, soln: Word, i: int) -> bool {
    &&& grade >> 10 == 0
    &&& forall|j: int|
        0 <= j < 5 ==> #[trigger] mark_field(grade, j) == (if j < i {
            mark_at(guess, soln, j)
        } else {
            green_at(guess, soln, j)
        })
}

/// The bank after `k` positions of the first pass: of each letter, as many
/// as the answer holds at those positions without a match.
pub open spec fn banked_misses(bank: u128, guess: Word, soln: Word, k: int) -> bool {
    &&& bank_fits(bank)
    &&& forall|d: int|
        0 <= d < 32 ==> #[trigger] bank_count(bank, d) == misses(
            letters(soln),
            letters(guess),
            d,
            k,
        )
}

/// The bank after `i` positions of the second pass: of each letter, what is
/// left when those positions have taken their yellows.
pub open spec fn banked_left(bank: u128, guess: Word, soln: Word, i: int) -> bool {
    &&& bank_fits(bank)
    &&& forall|d: int|
        0 <= d < 32 ==> #[trigger] bank_count(bank, d) == bank_left(
            letters(guess),
            letters(soln),
            d,
            i,
        )
}

/// The same as `banked_misses`, for a bank split into three segments.
pub open spec fn split_misses(segs: Seq<u32>, guess: Word, soln: Word, k: int) -> bool {
    &&& segs.len() == 3
    &&& seg_fits(segs[0]) && seg_fits(segs[1]) && seg_fits(segs[2])
    &&& forall|d: int|
        0 <= d < 30 ==> #[trigger] split_count(segs, d) == misses(
            letters(soln),
            letters(guess),
            d,
            k,
        )
}

/// The same as `banked_left`, for a bank split into three segments.
pub open spec fn split_left(segs: Seq<u32>, guess: Word, soln: Word, i: int) -> bool {
    &&& segs.len() == 3
    &&& seg_fits(segs[0]) && seg_fits(segs[1]) && seg_fits(segs[2])
    &&& forall|d: int|
        0 <= d < 30 ==> #[trigger] split_count(segs, d) == bank_left(
            letters(guess),
            letters(soln),
            d,
            i,
        )
}

/// The segment of a split bank that keeps the letter `c`.
pub open spec fn segment_of(c: int) -> int {
    if c < 10 {
        0
    } else if c < 20 {
        1
    } else {
        2
    }
}

/// The field of its segment that keeps the letter `c`.
pub open spec fn offset_of(c: int) -> int {
    c - 10 * segment_of(c)
}

/// Before the first position nothing is marked and nothing is banked.
pub proof fn lemma_passes_start(guess: Word, soln: Word)
    ensures
        greens_in(0, guess, soln, 0),
        banked_misses(0, guess, soln, 0),
        split_misses(seq![0u32, 0u32, 0u32], guess, soln, 0),
        guess >> 0 == guess,
        soln >> 0 == soln,
{
    lemma_grade_empty();
    lemma_shift_by_letters(guess, 0);
    lemma_shift_by_letters(soln, 0);
    lemma_bank_empty(0);
    lemma_seg_empty(0);
    assert forall|d: int| 0 <= d < 32 implies #[trigger] bank_count(0, d) == 0 by {
        lemma_bank_empty(d);
    }
    let segs = seq![0u32, 0u32, 0u32];
    assert forall|d: int| 0 <= d < 30 implies #[trigger] split_count(segs, d) == 0 by {
        lemma_seg_empty(d % 10);
    }
}

/// What the code reads at position `k`: the lowest letters of the two words
/// shifted down by `k` letters are their letters at `k`, and their exclusive
/// or tells whether the position is green.
pub proof fn lemma_read_position(guess: Word, soln: Word, k: int)
    requires
        0 <= k < 5,
    ensures
        (((guess >> ((5 * k) as u32)) ^ (soln >> ((5 * k) as u32))) & 0x1f == 0) <==> is_green(
            guess,
            soln,
            k,
        ),
        (guess >> ((5 * k) as u32)) & 0x1f == letter(guess, k),
        (soln >> ((5 * k) as u32)) & 0x1f == letter(soln, k),
        (guess >> ((5 * k) as u32)) >> 5 == guess >> ((5 * (k + 1)) as u32),
        (soln >> ((5 * k) as u32)) >> 5 == soln >> ((5 * (k + 1)) as u32),
        letters(guess)[k] == letter(guess, k),
        letters(soln)[k] == letter(soln, k),
        0 <= letter(guess, k) < 32,
        0 <= letter(soln, k) < 32,
{
    lemma_shift_by_letters(guess, k);
    lemma_shift_by_letters(soln, k);
    lemma_same_low_letter(guess >> ((5 * k) as u32), soln >> ((5 * k) as u32));
    lemma_same_low_letter(soln >> ((5 * k) as u32), guess >> ((5 * k) as u32));
}

/// First pass, the grade in 16 bits: or-ing a green above the fields if the
/// position is green, then shifting down by one field, takes the grade from
/// `k` positions to `k + 1`.
pub proof fn lemma_green_in16(before: u16, after: u16, guess: Word, soln: Word, k: int)
    requires
        0 <= k < 5,
        greens_in(before as u32, guess, soln, k),
        after == (if is_green(guess, soln, k) {
            before | (2u16 << 10)
        } else {
            before
        }) >> 2,
    ensures
        greens_in(after as u32, guess, soln, k + 1),
{
    let green = is_green(guess, soln, k);
    let mid: u16 = if green {
        before | (2u16 << 10)
    } else {
        before
    };
    lemma_grade16_shift_in(before, mid, green);
    assert forall|j: int| 0 <= j < 5 implies #[trigger] mark_field(after as u32, j) == (if j + k
        + 1 >= 5 {
        green_at(guess, soln, j + k + 1 - 5)
    } else {
        0
    }) by {
        if j < 4 {
            assert(mark_field(after as u32, j) == mark_field(before as u32, j + 1));
        }
    }
}

/// First pass, the grade in 32 bits: the same step.
pub proof fn lemma_green_in(before: u32, after: u32, guess: Word, soln: Word, k: int)
    requires
        0 <= k < 5,
        greens_in(before, guess, soln, k),
        after == (before | (if is_green(guess, soln, k) {
            2u32 << 10
        } else {
            0u32
        })) >> 2,
    ensures
        greens_in(after, guess, soln, k + 1),
{
    let top: u32 = if is_green(guess, soln, k) {
        2
    } else {
        0
    };
    lemma_shift_in(before, top);
    lemma_or_nothing(before);
    assert(after == (before | (top << 10)) >> 2);
    assert forall|j: int| 0 <= j < 5 implies #[trigger] mark_field(after, j) == (if j + k + 1
        >= 5 {
        green_at(guess, soln, j + k + 1 - 5)
    } else {
        0
    }) by {
        if j < 4 {
            assert(mark_field(after, j) == mark_field(before, j + 1));
        }
    }
}

/// First pass, the bank: a green position leaves the bank as it is; at any
/// other position there is room for the answer's letter, and adding it takes
/// the bank from `k` positions to `k + 1`.
pub proof fn lemma_bank_miss(bank: u128, guess: Word, soln: Word, k: int)
    requires
        0 <= k < 5,
        banked_misses(bank, guess, soln, k),
    ensures
        is_green(guess, soln, k) ==> banked_misses(bank, guess, soln, k + 1),
        !is_green(guess, soln, k) ==> bank + (1u128 << ((3 * letter(soln, k)) as u128))
            <= u128::MAX,
        !is_green(guess, soln, k) ==> banked_misses(
            (bank + (1u128 << ((3 * letter(soln, k)) as u128))) as u128,
            guess,
            soln,
            k + 1,
        ),
{
    let g = letters(guess);
    let a = letters(soln);
    let sc = letter(soln, k);
    lemma_read_position(guess, soln, k);
    assert forall|d: int| 0 <= d < 32 implies misses(a, g, d, k + 1) == #[trigger] bank_count(
        bank,
        d,
    ) + (if !is_green(guess, soln, k) && d == sc {
        1int
    } else {
        0int
    }) by {}
    if !is_green(guess, soln, k) {
        lemma_misses_bound(a, g, sc, k);
        assert(bank_count(bank, sc) == misses(a, g, sc, k));
        lemma_bank_put(bank, sc);
    }
}

/// First pass, the split bank of well-formed words: the same step, on the
/// segment that keeps the answer's letter.
pub proof fn lemma_split_miss(segs: Seq<u32>, guess: Word, soln: Word, k: int)
    requires
        0 <= k < 5,
        valid_word(soln),
        split_misses(segs, guess, soln, k),
    ensures
        is_green(guess, soln, k) ==> split_misses(segs, guess, soln, k + 1),
        !is_green(guess, soln, k) ==> ({
            let c = letter(soln, k);
            let seg = segs[segment_of(c)];
            &&& seg + (1u32 << ((3 * offset_of(c)) as u32)) <= u32::MAX
            &&& split_misses(
                segs.update(segment_of(c), (seg + (1u32 << ((3 * offset_of(c)) as u32))) as u32),
                guess,
                soln,
                k + 1,
            )
        }),
{
    let g = letters(guess);
    let a = letters(soln);
    let c = letter(soln, k);
    lemma_read_position(guess, soln, k);
    assert(letter(soln, k) < 26);
    assert forall|d: int| 0 <= d < 30 implies misses(a, g, d, k + 1) == #[trigger] split_count(
        segs,
        d,
    ) + (if !is_green(guess, soln, k) && d == c {
        1int
    } else {
        0int
    }) by {}
    if !is_green(guess, soln, k) {
        lemma_misses_bound(a, g, c, k);
        assert(split_count(segs, c) == misses(a, g, c, k));
        let seg = segs[segment_of(c)];
        lemma_seg_put(seg, offset_of(c));
        let next = segs.update(
            segment_of(c),
            (seg + (1u32 << ((3 * offset_of(c)) as u32))) as u32,
        );
        assert forall|d: int| 0 <= d < 30 implies #[trigger] split_count(next, d) == misses(
            a,
            g,
            d,
            k + 1,
        ) by {
            assert(split_count(segs, d) == misses(a, g, d, k));
        }
    }
}

/// Between the passes: with all greens marked and all misses banked, the
/// second pass starts.
pub proof fn lemma_passes_turn(grade: u32, bank: u128, guess: Word, soln: Word)
    requires
        greens_in(grade, guess, soln, 5),
        banked_misses(bank, guess, soln, 5),
    ensures
        marks_in(grade, guess, soln, 0),
        banked_left(bank, guess, soln, 0),
{
    assert forall|d: int| 0 <= d < 32 implies #[trigger] bank_count(bank, d) == bank_left(
        letters(guess),
        letters(soln),
        d,
        0,
    ) by {
        lemma_bank_left_step(letters(guess), letters(soln), d, 0);
    }
}

/// Between the passes, with a split bank.
pub proof fn lemma_split_turn(grade: u32, segs: Seq<u32>, guess: Word, soln: Word)
    requires
        greens_in(grade, guess, soln, 5),
        split_misses(segs, guess, soln, 5),
    ensures
        marks_in(grade, guess, soln, 0),
        split_left(segs, guess, soln, 0),
{
    assert forall|d: int| 0 <= d < 30 implies #[trigger] split_count(segs, d) == bank_left(
        letters(guess),
        letters(soln),
        d,
        0,
    ) by {
        lemma_bank_left_step(letters(guess), letters(soln), d, 0);
    }
}

/// Second pass, what the code tests at position `i`, the grade in 16 bits:
/// the field is empty exactly when the position is not green, the bank's
/// field is what the bank has left of the guess's letter, and the position
/// is yellow exactly when it is not green and the bank has its letter; then
/// the bank can give one.
pub proof fn lemma_yellow_test16(grade: u16, bank: u128, guess: Word, soln: Word, i: int)
    requires
        0 <= i < 5,
        marks_in(grade as u32, guess, soln, i),
        banked_left(bank, guess, soln, i),
    ensures
        (grade & (3u16 << ((2 * i) as u16)) == 0) <==> !is_green(guess, soln, i),
        (bank >> ((3 * letter(guess, i)) as u128)) & 7 == bank_left(
            letters(guess),
            letters(soln),
            letter(guess, i),
            i,
        ),
        mark_at(guess, soln, i) == 1 <==> !is_green(guess, soln, i) && bank_count(
            bank,
            letter(guess, i),
        ) > 0,
        mark_at(guess, soln, i) == 1 ==> bank >= 1u128 << ((3 * letter(guess, i)) as u128),
{
    lemma_read_position(guess, soln, i);
    lemma_grade16_yellow(grade, i);
    let c = letter(guess, i);
    assert(mark_field(grade as u32, i) == green_at(guess, soln, i));
    assert(bank_count(bank, c) == bank_left(letters(guess), letters(soln), c, i));
    if mark_at(guess, soln, i) == 1 {
        lemma_bank_take(bank, c);
    }
}

/// Second pass, the step at position `i`, the grade in 16 bits: where the
/// position is yellow, or-ing the yellow into its field and taking its
/// letter from the bank, and else leaving both, takes grade and bank from
/// `i` positions to `i + 1`.
pub proof fn lemma_yellow_step16(
    grade: u16,
    grade_after: u16,
    bank: u128,
    bank_after: u128,
    guess: Word,
    soln: Word,
    i: int,
)
    requires
        0 <= i < 5,
        marks_in(grade as u32, guess, soln, i),
        banked_left(bank, guess, soln, i),
        grade_after == (if mark_at(guess, soln, i) == 1 {
            grade | (1u16 << ((2 * i) as u16))
        } else {
            grade
        }),
        bank_after == (if mark_at(guess, soln, i) == 1 {
            (bank - (1u128 << ((3 * letter(guess, i)) as u128))) as u128
        } else {
            bank
        }),
    ensures
        marks_in(grade_after as u32, guess, soln, i + 1),
        banked_left(bank_after, guess, soln, i + 1),
{
    lemma_yellow_test16(grade, bank, guess, soln, i);
    lemma_read_position(guess, soln, i);
    lemma_grade16_yellow(grade, i);
    let c = letter(guess, i);
    if mark_at(guess, soln, i) == 1 {
        lemma_bank_take(bank, c);
    }
    assert forall|d: int| 0 <= d < 32 implies #[trigger] bank_count(bank_after, d) == bank_left(
        letters(guess),
        letters(soln),
        d,
        i + 1,
    ) by {
        lemma_bank_left_step(letters(guess), letters(soln), d, i);
        assert(bank_count(bank, d) == bank_left(letters(guess), letters(soln), d, i));
    }
    assert forall|j: int| 0 <= j < 5 implies #[trigger] mark_field(grade_after as u32, j) == (if j
        < i + 1 {
        mark_at(guess, soln, j)
    } else {
        green_at(guess, soln, j)
    }) by {
        assert(mark_field(grade as u32, j) == (if j < i {
            mark_at(guess, soln, j)
        } else {
            green_at(guess, soln, j)
        }));
    }
}

/// Second pass with a split bank of well-formed words, what the code tests
/// at position `i`.
pub proof fn lemma_split_test(grade: u32, segs: Seq<u32>, guess: Word, soln: Word, i: int)
    requires
        0 <= i < 5,
        valid_word(guess),
        marks_in(grade, guess, soln, i),
        split_left(segs, guess, soln, i),
    ensures
        (grade & (3u32 << ((2 * i) as u32)) == 0) <==> !is_green(guess, soln, i),
        0 <= offset_of(letter(guess, i)) < 10,
        (segs[segment_of(letter(guess, i))] >> ((3 * offset_of(letter(guess, i))) as u32)) & 7
            == bank_left(letters(guess), letters(soln), letter(guess, i), i),
        mark_at(guess, soln, i) == 1 <==> !is_green(guess, soln, i) && split_count(
            segs,
            letter(guess, i),
        ) > 0,
        mark_at(guess, soln, i) == 1 ==> segs[segment_of(letter(guess, i))] >= 1u32 << ((3
            * offset_of(letter(guess, i))) as u32),
{
    lemma_read_position(guess, soln, i);
    lemma_field_is_black(grade, i);
    let c = letter(guess, i);
    assert(letter(guess, i) < 26);
    assert(mark_field(grade, i) == green_at(guess, soln, i));
    assert(split_count(segs, c) == bank_left(letters(guess), letters(soln), c, i));
    if mark_at(guess, soln, i) == 1 {
        lemma_seg_take(segs[segment_of(c)], offset_of(c));
    }
}

/// Second pass with a split bank of well-formed words, the step at position
/// `i`.
pub proof fn lemma_split_step(
    grade: u32,
    grade_after: u32,
    segs: Seq<u32>,
    segs_after: Seq<u32>,
    guess: Word,
    soln: Word,
    i: int,
)
    requires
        0 <= i < 5,
        valid_word(guess),
        marks_in(grade, guess, soln, i),
        split_left(segs, guess, soln, i),
        grade_after == grade | (if mark_at(guess, soln, i) == 1 {
            1u32 << ((2 * i) as u32)
        } else {
            0u32
        }),
        segs_after == (if mark_at(guess, soln, i) == 1 {
            segs.update(
                segment_of(letter(guess, i)),
                (segs[segment_of(letter(guess, i))] - (1u32 << ((3 * offset_of(
                    letter(guess, i),
                )) as u32))) as u32,
            )
        } else {
            segs
        }),
    ensures
        marks_in(grade_after, guess, soln, i + 1),
        split_left(segs_after, guess, soln, i + 1),
{
    lemma_split_test(grade, segs, guess, soln, i);
    lemma_read_position(guess, soln, i);
    lemma_or_nothing(grade);
    let c = letter(guess, i);
    assert(letter(guess, i) < 26);
    if mark_at(guess, soln, i) == 1 {
        lemma_seg_take(segs[segment_of(c)], offset_of(c));
        lemma_set_mark(grade, 1, i);
    }
    assert forall|d: int| 0 <= d < 30 implies #[trigger] split_count(segs_after, d) == bank_left(
        letters(guess),
        letters(soln),
        d,
        i + 1,
    ) by {
        lemma_bank_left_step(letters(guess), letters(soln), d, i);
        assert(split_count(segs, d) == bank_left(letters(guess), letters(soln), d, i));
    }
    assert forall|j: int| 0 <= j < 5 implies #[trigger] mark_field(grade_after, j) == (if j < i
        + 1 {
        mark_at(guess, soln, j)
    } else {
        green_at(guess, soln, j)
    }) by {
        assert(mark_field(grade, j) == (if j < i {
            mark_at(guess, soln, j)
        } else {
            green_at(guess, soln, j)
        }));
    }
}

/// After the second pass the grade is the packed grade of the pair.
pub proof fn lemma_passes_end(grade: u32, guess: Word, soln: Word)
    requires
        marks_in(grade, guess, soln, 5),
    ensures
        grade == grade_of(guess, soln),
        grade < N_GRADES,
{
    lemma_grade_is_sum(grade);
    lemma_grade_range(guess, soln);
    assert(mark_field(grade, 0) == mark_at(guess, soln, 0));
    assert(mark_field(grade, 1) == mark_at(guess, soln, 1));
    assert(mark_field(grade, 2) == mark_at(guess, soln, 2));
    assert(mark_field(grade, 3) == mark_at(guess, soln, 3));
    assert(mark_field(grade, 4) == mark_at(guess, soln, 4));
}

} // verus!
