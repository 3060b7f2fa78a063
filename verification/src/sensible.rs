//! Grading on words of five bytes, with a bank of one counter per byte value.

use vstd::prelude::*;
use crate::feedback::{bank_left, lemma_bank_left_step, lemma_misses_bound, mark, misses};

verus! {

/// The mark of one position.
#[derive(Clone, Copy, Debug, PartialEq, Eq, PartialOrd, Hash)]
pub enum Color {
    Black,
    Yellow,
    Green,
}

impl Color {
    /// The number that stands for the mark: 0 for black, 1 for yellow, 2 for
    /// green.
    pub open spec fn code(self) -> int {
        match self {
            Color::Black => 0,
            Color::Yellow => 1,
            Color::Green => 2,
        }
    }
}

/// Grades a guess of five bytes against an answer of five bytes.
pub fn grade(w: [u8; 5], soln: [u8; 5]) -> (grade: [Color; 5])
    ensures
        forall|i: int| 0 <= i < 5 ==> (#[trigger] grade@[i]).code() == mark(w@, soln@, i),
{
    let mut bank: [u8; 256] = [0u8;256];
    let mut grade: [Color; 5] = [Color::Black;5];
    let mut k: usize = 0;
    while k < 5
        invariant
            k <= 5,
            forall|j: int|
                0 <= j < 5 ==> (#[trigger] grade@[j]).code() == (if j < k && w@[j] == soln@[j] {
                    2int
                } else {
                    0int
                }),
            forall|d: int|
                0 <= d < 256 ==> #[trigger] bank@[d] == misses(soln@, w@, d as u8, k as int),
        decreases 5 - k,
    {
        let ghost old_bank = bank@;
        if w[k] == soln[k] {
            grade[k] = Color::Green;
        } else {
            let sc: usize = soln[k] as usize;
            proof {
                lemma_misses_bound(soln@, w@, soln@[k as int], k as int);
            }
            bank[sc] = bank[sc] + 1;
        }
        proof {
            assert forall|d: int| 0 <= d < 256 implies #[trigger] bank@[d] == misses(
                soln@,
                w@,
                d as u8,
                k + 1,
            ) by {
                assert(old_bank[d] == misses(soln@, w@, d as u8, k as int));
            }
        }
        k += 1;
    }
    proof {
        assert forall|d: int| 0 <= d < 256 implies #[trigger] bank@[d] == bank_left(
            w@,
            soln@,
            d as u8,
            0,
        ) by {
            lemma_bank_left_step(w@, soln@, d as u8, 0);
        }
    }
    let mut i: usize = 0;
    while i < 5
        invariant
            i <= 5,
            forall|j: int|
                0 <= j < 5 ==> (#[trigger] grade@[j]).code() == (if j < i {
                    mark(w@, soln@, j)
                } else if w@[j] == soln@[j] {
                    2int
                } else {
                    0int
                }),
            forall|d: int|
                0 <= d < 256 ==> #[trigger] bank@[d] == bank_left(w@, soln@, d as u8, i as int),
        decreases 5 - i,
    {
        let ghost old_bank = bank@;
        let ghost old_grade = grade@;
        let wc: usize = w[i] as usize;
        let is_black = match grade[i] {
            Color::Black => true,
            _ => false,
        };
        proof {
            assert(old_grade[i as int].code() == (if w@[i as int] == soln@[i as int] {
                2int
            } else {
                0int
            }));
            assert(bank@[wc as int] == bank_left(w@, soln@, wc as u8, i as int));
        }
        if is_black && bank[wc] > 0 {
            bank[wc] = bank[wc] - 1;
            grade[i] = Color::Yellow;
        }
        proof {
            assert forall|d: int| 0 <= d < 256 implies #[trigger] bank@[d] == bank_left(
                w@,
                soln@,
                d as u8,
                i + 1,
            ) by {
                lemma_bank_left_step(w@, soln@, d as u8, i as int);
                assert(old_bank[d] == bank_left(w@, soln@, d as u8, i as int));
            }
            assert forall|j: int| 0 <= j < 5 implies (#[trigger] grade@[j]).code() == (if j < i
                + 1 {
                mark(w@, soln@, j)
            } else if w@[j] == soln@[j] {
                2int
            } else {
                0int
            }) by {
                assert(old_grade[j].code() == (if j < i {
                    mark(w@, soln@, j)
                } else if w@[j] == soln@[j] {
                    2int
                } else {
                    0int
                }));
            }
        }
        i += 1;
    }
    grade
}

} // verus!
