//! Grading on words as text of any length, with the bank in a hash map keyed
//! by the letter's code point.

use vstd::prelude::*;
use std::collections::HashMap;
use crate::feedback::{bank_left, lemma_bank_left_step, lemma_misses_bound, mark, misses};

verus! {

/// The mark of one position.
#[derive(Clone, Copy, Debug, PartialEq, Eq, Hash)]
pub enum Color {
    Black,
    Yellow,
    Green,
}

impl Color {
    /// The number that stands for the mark: 0 for black, 1 for yellow, 2 for
    /// green.
    pub open spec fn code(self) -> int {
        match self {
            Color::Black => 0,
            Color::Yellow => 1,
            Color::Green => 2,
        }
    }
}

/// What a bank holds of the letter `c`: nothing where it has no entry.
pub open spec fn banked(bank: Map<u32, usize>, c: char) -> int {
    if bank.contains_key(c as u32) {
        bank[c as u32] as int
    } else {
        0
    }
}

/// Two letters with the same code point are the same letter.
proof fn lemma_key_tells_letter(c: char, d: char)
    ensures
        c as u32 == d as u32 <==> c == d,
{
}

/// Grades a guess against an answer, letter by letter.
///
/// Where one of the two is longer, what it has beyond the length of the
/// other is left out.
pub fn grade(w: &str, sol: &str) -> (grade: Vec<Color>)
    ensures
        grade@.len() == w@.len() || grade@.len() == sol@.len(),
        grade@.len() <= w@.len(),
        grade@.len() <= sol@.len(),
        forall|i: int|
            0 <= i < grade@.len() ==> (#[trigger] grade@[i]).code() == mark(
                w@.take(grade@.len() as int),
                sol@.take(grade@.len() as int),
                i,
            ),
        w@.len() == sol@.len() ==> forall|i: int|
            0 <= i < w@.len() ==> (#[trigger] grade@[i]).code() == mark(w@, sol@, i),
{
    broadcast use vstd::std_specs::hash::group_hash_axioms;

    let w_len: usize = w.unicode_len();
    let sol_len: usize = sol.unicode_len();
    let n: usize = if w_len <= sol_len {
        w_len
    } else {
        sol_len
    };
    let ghost g = w@.take(n as int);
    let ghost a = sol@.take(n as int);
    let mut bank: HashMap<u32, usize> = HashMap::new();
    let mut grade: Vec<Color> = Vec::with_capacity(n);
    let mut k: usize = 0;
    while k < n
        invariant
            k <= n,
            n <= w@.len(),
            n <= sol@.len(),
            g == w@.take(n as int),
            a == sol@.take(n as int),
            grade@.len() == k,
            forall|j: int|
                0 <= j < k ==> (#[trigger] grade@[j]).code() == (if g[j] == a[j] {
                    2int
                } else {
                    0int
                }),
            forall|c: char| #[trigger] banked(bank@, c) == misses(a, g, c, k as int),
        decreases n - k,
    {
        let ghost old_bank = bank@;
        let wc: char = w.get_char(k);
        let sc: char = sol.get_char(k);
        if wc == sc {
            grade.push(Color::Green);
        } else {
            grade.push(Color::Black);
            let key: u32 = sc as u32;
            let count: usize = match bank.get(&key) {
                Some(held) => *held,
                None => 0,
            };
            proof {
                lemma_misses_bound(a, g, sc, k as int);
                assert(count == banked(bank@, sc));
            }
            bank.insert(key, count + 1);
        }
        proof {
            assert forall|c: char| #[trigger] banked(bank@, c) == misses(a, g, c, k + 1) by {
                assert(banked(old_bank, c) == misses(a, g, c, k as int));
                lemma_key_tells_letter(c, sc);
            }
        }
        k += 1;
    }
    proof {
        assert forall|c: char| #[trigger] banked(bank@, c) == bank_left(g, a, c, 0) by {
            lemma_bank_left_step(g, a, c, 0);
        }
    }
    let mut i: usize = 0;
    while i < n
        invariant
            i <= n,
            n <= w@.len(),
            n <= sol@.len(),
            g == w@.take(n as int),
            a == sol@.take(n as int),
            grade@.len() == n,
            forall|j: int|
                0 <= j < n ==> (#[trigger] grade@[j]).code() == (if j < i {
                    mark(g, a, j)
                } else if g[j] == a[j] {
                    2int
                } else {
                    0int
                }),
            forall|c: char| #[trigger] banked(bank@, c) == bank_left(g, a, c, i as int),
        decreases n - i,
    {
        let ghost old_bank = bank@;
        let ghost old_grade = grade@;
        let wc: char = w.get_char(i);
        let key: u32 = wc as u32;
        let is_black = match grade[i] {
            Color::Black => true,
            _ => false,
        };
        proof {
            assert(old_grade[i as int].code() == (if g[i as int] == a[i as int] {
                2int
            } else {
                0int
            }));
            assert(banked(bank@, wc) == bank_left(g, a, wc, i as int));
        }
        if is_black {
            let count: usize = match bank.get(&key) {
                Some(held) => *held,
                None => 0,
            };
            if count > 0 {
                bank.insert(key, count - 1);
                grade.set(i, Color::Yellow);
            }
        }
        proof {
            assert forall|c: char| #[trigger] banked(bank@, c) == bank_left(g, a, c, i + 1) by {
                lemma_bank_left_step(g, a, c, i as int);
                assert(banked(old_bank, c) == bank_left(g, a, c, i as int));
                lemma_key_tells_letter(c, wc);
            }
            assert forall|j: int| 0 <= j < n implies (#[trigger] grade@[j]).code() == (if j < i
                + 1 {
                mark(g, a, j)
            } else if g[j] == a[j] {
                2int
            } else {
                0int
            }) by {
                assert(old_grade[j].code() == (if j < i {
                    mark(g, a, j)
                } else if g[j] == a[j] {
                    2int
                } else {
                    0int
                }));
            }
        }
        i += 1;
    }
    proof {
        if w@.len() == sol@.len() {
            assert(g =~= w@);
            assert(a =~= sol@);
        }
    }
    grade
}

} // verus!
