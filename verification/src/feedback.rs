//! The rules of the game's feedback, as mathematics.
//!
//! A guess is held against an answer of the same length. A position where the
//! two agree is green. The letters of the answer at the other positions form
//! a bank. Going through the guess from the left, a position that is not green
//! takes its letter from the bank and is yellow if the bank still has one, and
//! is black if it has none.

use vstd::prelude::*;
use crate::codec::{letter, letters};
use crate::Word;

verus! {

/// How many positions before `n` hold the letter `c` in `held` and another
/// letter in `other`.
pub open spec fn misses<T>(held: Seq<T>, other: Seq<T>, c: T, n: int) -> nat
    decreases n,
{
    if n <= 0 {
        0
    } else {
        misses(held, other, c, n - 1) + (if held[n - 1] == c && other[n - 1] != c {
            1nat
        } else {
            0nat
        })
    }
}

/// What the bank holds of the letter `c` before any yellow is handed out.
pub open spec fn bank_at_start<T>(guess: Seq<T>, answer: Seq<T>, c: T) -> nat {
    misses(answer, guess, c, answer.len() as int)
}

/// What the bank still holds of the letter `c` when the positions before `n`
/// of the guess have taken their yellows.
pub open spec fn bank_left<T>(guess: Seq<T>, answer: Seq<T>, c: T, n: int) -> nat {
    let had = bank_at_start(guess, answer, c);
    let asked = misses(guess, answer, c, n);
    if asked < had {
        (had - asked) as nat
    } else {
        0
    }
}

/// The mark of position `i`: 2 for green, 1 for yellow, 0 for black.
pub open spec fn mark<T>(guess: Seq<T>, answer: Seq<T>, i: int) -> int {
    if answer[i] == guess[i] {
        2
    } else if bank_left(guess, answer, guess[i], i) > 0 {
        1
    } else {
        0
    }
}

/// The marks of all positions of the guess.
pub open spec fn marks<T>(guess: Seq<T>, answer: Seq<T>) -> Seq<int> {
    Seq::new(guess.len(), |i: int| mark(guess, answer, i))
}

/// The mark of position `i` of a packed guess against a packed answer.
pub open spec fn mark_at(guess: Word, answer: Word, i: int) -> int {
    mark(letters(guess), letters(answer), i)
}

/// The mark of position `j` of a packed guess when only the greens have been
/// marked: green or nothing.
pub open spec fn green_at(guess: Word, answer: Word, j: int) -> int {
    if letter(guess, j) == letter(answer, j) {
        2
    } else {
        0
    }
}

/// The packed grade of a packed guess against a packed answer: the five marks,
/// two bits each, the first position lowest.
pub open spec fn grade_of(guess: Word, answer: Word) -> int {
    mark_at(guess, answer, 0) + 4 * mark_at(guess, answer, 1) + 16 * mark_at(guess, answer, 2) + 64
        * mark_at(guess, answer, 3) + 256 * mark_at(guess, answer, 4)
}

/// How many positions before `n` hold the letter `c` in `s`.
pub open spec fn occurrences<T>(s: Seq<T>, c: T, n: int) -> nat
    decreases n,
{
    if n <= 0 {
        0
    } else {
        occurrences(s, c, n - 1) + (if s[n - 1] == c {
            1nat
        } else {
            0nat
        })
    }
}

/// How many positions before `n` of the guess hold the letter `c` and are
/// marked green or yellow.
pub open spec fn marked<T>(guess: Seq<T>, answer: Seq<T>, c: T, n: int) -> nat
    decreases n,
{
    if n <= 0 {
        0
    } else {
        marked(guess, answer, c, n - 1) + (if guess[n - 1] == c && mark(guess, answer, n - 1) > 0 {
            1nat
        } else {
            0nat
        })
    }
}

/// Every mark is black, yellow or green, so a packed grade is below 683.
pub proof fn lemma_grade_range(guess: Word, answer: Word)
    ensures
        0 <= grade_of(guess, answer) <= 682,
        forall|i: int| 0 <= #[trigger] mark_at(guess, answer, i) <= 2,
{
}

/// A word held against itself is green at every position.
pub proof fn lemma_same_word_all_green<T>(w: Seq<T>)
    ensures
        forall|i: int| 0 <= i < w.len() ==> #[trigger] mark(w, w, i) == 2,
        marks(w, w) == Seq::new(w.len(), |i: int| 2int),
{
    assert(marks(w, w) =~= Seq::new(w.len(), |i: int| 2int));
}

/// A packed word held against itself gets the all-green grade.
pub proof fn lemma_same_packed_word_all_green(w: Word)
    ensures
        grade_of(w, w) == 0b1010101010,
{
}

/// Only a guess that has every letter of the answer in its place gets the
/// all-green grade.
pub proof fn lemma_all_green_means_same_letters(guess: Word, answer: Word)
    ensures
        grade_of(guess, answer) == 0b1010101010 <==> letters(guess) == letters(answer),
{
    lemma_grade_range(guess, answer);
    if grade_of(guess, answer) == 0b1010101010 {
        assert forall|i: int| 0 <= i < 5 implies letters(guess)[i] == letters(answer)[i] by {
            assert(mark_at(guess, answer, 0) == 2 && mark_at(guess, answer, 1) == 2 && mark_at(
                guess,
                answer,
                2,
            ) == 2 && mark_at(guess, answer, 3) == 2 && mark_at(guess, answer, 4) == 2);
            assert(mark_at(guess, answer, i) == 2);
        }
        assert(letters(guess) =~= letters(answer));
    }
    if letters(guess) == letters(answer) {
        lemma_same_word_all_green(letters(guess));
    }
}

/// No more positions miss than were looked at.
pub proof fn lemma_misses_bound<T>(held: Seq<T>, other: Seq<T>, c: T, n: int)
    requires
        0 <= n,
    ensures
        misses(held, other, c, n) <= n,
    decreases n,
{
    if n > 0 {
        lemma_misses_bound(held, other, c, n - 1);
    }
}

/// What one position of the guess does to the bank: it takes one of its own
/// letter if it is not green and the bank has one, and nothing else.
pub proof fn lemma_bank_left_step<T>(guess: Seq<T>, answer: Seq<T>, d: T, i: int)
    requires
        0 <= i,
    ensures
        bank_left(guess, answer, d, i + 1) == bank_left(guess, answer, d, i) - (if guess[i] == d
            && mark(guess, answer, i) == 1 {
            1int
        } else {
            0int
        }),
        bank_left(guess, answer, d, 0) == bank_at_start(guess, answer, d),
        bank_left(guess, answer, d, i) <= bank_at_start(guess, answer, d) <= answer.len(),
{
    lemma_misses_bound(answer, guess, d, answer.len() as int);
    assert(misses(guess, answer, d, i + 1) == misses(guess, answer, d, i) + (if guess[i] == d
        && answer[i] != d {
        1nat
    } else {
        0nat
    }));
}

proof fn lemma_misses_grow<T>(held: Seq<T>, other: Seq<T>, c: T, i: int, j: int)
    requires
        0 <= i <= j,
    ensures
        misses(held, other, c, i) <= misses(held, other, c, j),
    decreases j - i,
{
    if i < j {
        lemma_misses_grow(held, other, c, i, j - 1);
    }
}

/// Where the guess repeats a letter, the bank serves the left position
/// first: of two positions with the same letter, neither green, the left one
/// is yellow whenever the right one is.
pub proof fn lemma_leftmost_wins<T>(guess: Seq<T>, answer: Seq<T>, i: int, j: int)
    requires
        0 <= i < j,
        guess[i] == guess[j],
        mark(guess, answer, i) != 2,
        mark(guess, answer, j) == 1,
    ensures
        mark(guess, answer, i) == 1,
{
    lemma_misses_grow(guess, answer, guess[i], i, j);
}

/// The positions before `n` that hold `c` in both words.
spec fn hits<T>(guess: Seq<T>, answer: Seq<T>, c: T, n: int) -> nat
    decreases n,
{
    if n <= 0 {
        0
    } else {
        hits(guess, answer, c, n - 1) + (if guess[n - 1] == c && answer[n - 1] == c {
            1nat
        } else {
            0nat
        })
    }
}

proof fn lemma_marked_split<T>(guess: Seq<T>, answer: Seq<T>, c: T, n: int)
    requires
        0 <= n,
    ensures
        occurrences(answer, c, n) == hits(guess, answer, c, n) + misses(answer, guess, c, n),
        marked(guess, answer, c, n) + bank_left(guess, answer, c, n) == hits(guess, answer, c, n)
            + bank_at_start(guess, answer, c),
    decreases n,
{
    if n > 0 {
        lemma_marked_split(guess, answer, c, n - 1);
    }
}

/// Green and yellow marks on a letter never outnumber that letter in the
/// answer: of each letter value, the guess has at most as many marked
/// positions as the answer has positions holding it.
pub proof fn lemma_marks_within_answer<T>(guess: Seq<T>, answer: Seq<T>, c: T)
    requires
        guess.len() == answer.len(),
    ensures
        marked(guess, answer, c, guess.len() as int) + bank_left(
            guess,
            answer,
            c,
            guess.len() as int,
        ) == occurrences(answer, c, answer.len() as int),
        marked(guess, answer, c, guess.len() as int) <= occurrences(
            answer,
            c,
            answer.len() as int,
        ),
{
    lemma_marked_split(guess, answer, c, guess.len() as int);
}

/// The same for packed words: of each letter value, a packed guess has at
/// most as many green and yellow positions as the packed answer has
/// positions holding it.
pub proof fn lemma_packed_marks_within_answer(guess: Word, answer: Word, c: int)
    ensures
        marked(letters(guess), letters(answer), c, 5) <= occurrences(letters(answer), c, 5),
{
    lemma_marks_within_answer(letters(guess), letters(answer), c);
}

} // verus!
