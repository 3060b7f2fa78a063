//! Packing five lowercase letters into a word, and back.

use vstd::prelude::*;
use crate::Word;

verus! {

/// The letter at position `i` of a packed word: its `i`-th 5-bit field.
pub open spec fn letter(w: Word, i: int) -> int {
    ((w >> ((5 * i) as u32)) & 0x1f) as int
}

/// The five letters of a packed word, first letter first.
pub open spec fn letters(w: Word) -> Seq<int> {
    Seq::new(5, |i: int| letter(w, i))
}

/// The word whose letters are `l0` to `l4`, each below 32.
pub open spec fn pack5(l0: int, l1: int, l2: int, l3: int, l4: int) -> int {
    l0 + 32 * l1 + 1024 * l2 + 32768 * l3 + 1048576 * l4
}

/// A well-formed word: nothing above the five fields, and every field a
/// letter of the alphabet.
pub open spec fn valid_word(w: Word) -> bool {
    &&& w < 0x200_0000
    &&& forall|i: int| 0 <= i < 5 ==> #[trigger] letter(w, i) < 26
}

/// Text that spells a word: exactly five lowercase ascii letters.
pub open spec fn spells_word(s: Seq<u8>) -> bool {
    &&& s.len() == 5
    &&& forall|i: int| 0 <= i < 5 ==> 0x61 <= #[trigger] s[i] <= 0x7a
}

/// The packed form of five lowercase letters.
pub open spec fn word_of(s: Seq<u8>) -> int {
    pack5(s[0] - 0x61, s[1] - 0x61, s[2] - 0x61, s[3] - 0x61, s[4] - 0x61)
}

proof fn lemma_put_letter(w: u32, l: u32, i: u32, j: u32)
    by (bit_vector)
    requires
        i < 5,
        j < 5,
        l < 32,
        w >> (5 * i) == 0,
    ensures
        ((w | (l << (5 * i))) >> (5 * j)) & 0x1f == (if j == i {
            l
        } else {
            (w >> (5 * j)) & 0x1f
        }),
        (w | (l << (5 * i))) >> (5 * (i + 1)) == 0,
{
}

proof fn lemma_word_is_sum(w: u32)
    by (bit_vector)
    requires
        w >> 25 == 0,
    ensures
        w == (w & 0x1f) + 32 * ((w >> 5) & 0x1f) + 1024 * ((w >> 10) & 0x1f) + 32768 * ((w >> 15)
            & 0x1f) + 1048576 * ((w >> 20) & 0x1f),
        w < 0x200_0000,
        (w >> 0) & 0x1f == w & 0x1f,
{
}

/// Packs five lowercase ascii letters into a word; any other text is refused.
pub fn word_from_str(s: &[u8]) -> (r: Option<Word>)
    ensures
        r.is_some() <==> spells_word(s@),
        r matches Some(w) ==> w == word_of(s@) && valid_word(w) && forall|i: int|
            0 <= i < 5 ==> #[trigger] letter(w, i) == s[i] - 0x61,
{
    if s.len() != 5 {
        return None;
    }
    let mut w: u32 = 0;
    let mut i: usize = 0;
    proof {
        assert(0u32 >> 0 == 0) by (bit_vector);
        assert forall|j: int| 0 <= j < 5 implies #[trigger] letter(0, j) == 0 by {
            let k = (5 * j) as u32;
            assert((0u32 >> k) & 0x1f == 0) by (bit_vector);
        }
    }
    while i < 5
        invariant
            s.len() == 5,
            i <= 5,
            w >> ((5 * i) as u32) == 0,
            forall|j: int| 0 <= j < i ==> 0x61 <= #[trigger] s[j] <= 0x7a,
            forall|j: int|
                0 <= j < 5 ==> #[trigger] letter(w, j) == (if j < i {
                    s[j] - 0x61
                } else {
                    0
                }),
        decreases 5 - i,
    {
        let c: u8 = s[i];
        if !(c >= 0x61 && c <= 0x7a) {
            return None;
        }
        let l: u32 = (c - 0x61) as u32;
        let shift: u32 = 5 * (i as u32);
        proof {
            assert forall|j: int| 0 <= j < 5 implies #[trigger] letter(w | (l << shift), j) == (
            if j < i + 1 {
                s[j] - 0x61
            } else {
                0
            }) by {
                lemma_put_letter(w, l, i as u32, j as u32);
                assert(letter(w, j) == (if j < i {
                    s[j] - 0x61
                } else {
                    0
                }));
            }
            lemma_put_letter(w, l, i as u32, 0);
        }
        w |= l << shift;
        i += 1;
    }
    proof {
        lemma_word_is_sum(w);
        assert(letter(w, 0) == s[0] - 0x61);
        assert(letter(w, 1) == s[1] - 0x61);
        assert(letter(w, 2) == s[2] - 0x61);
        assert(letter(w, 3) == s[3] - 0x61);
        assert(letter(w, 4) == s[4] - 0x61);
    }
    Some(w)
}

/// Tells whether an integer is a well-formed word.
pub fn is_word(w: Word) -> (ok: bool)
    ensures
        ok == valid_word(w),
{
    if w >= 0x200_0000 {
        return false;
    }
    let mut i: usize = 0;
    while i < 5
        invariant
            i <= 5,
            forall|j: int| 0 <= j < i ==> #[trigger] letter(w, j) < 26,
        decreases 5 - i,
    {
        let shift: u32 = 5 * (i as u32);
        if (w >> shift) & 0x1f >= 26 {
            assert(letter(w, i as int) >= 26);
            return false;
        }
        i += 1;
    }
    true
}

/// The text of a word: each letter as its lowercase ascii byte.
pub open spec fn text_of(w: Word) -> Seq<u8> {
    Seq::new(5, |i: int| (letter(w, i) + 0x61) as u8)
}

proof fn lemma_letter_bound(w: u32, k: u32)
    by (bit_vector)
    ensures
        (w >> k) & 0x1f < 32,
{
}

/// Unpacks a word into its five ascii bytes.
pub fn str_from_word(word: Word) -> (text: [u8; 5])
    ensures
        text@ == text_of(word),
        valid_word(word) ==> spells_word(text@),
{
    let mut text: [u8; 5] = [0x61u8;5];
    let mut i: usize = 0;
    while i < 5
        invariant
            i <= 5,
            forall|j: int| 0 <= j < i ==> #[trigger] text[j] == letter(word, j) + 0x61,
        decreases 5 - i,
    {
        let shift: u32 = 5 * (i as u32);
        let l: u32 = (word >> shift) & 0x1f;
        proof {
            lemma_letter_bound(word, shift);
        }
        text[i] = (l as u8) + 0x61;
        i += 1;
    }
    assert(text@ =~= text_of(word));
    text
}

proof fn lemma_letters_of_sum(l0: u32, l1: u32, l2: u32, l3: u32, l4: u32)
    by (bit_vector)
    requires
        l0 < 32,
        l1 < 32,
        l2 < 32,
        l3 < 32,
        l4 < 32,
    ensures
        ({
            let w = (l0 + 32 * l1 + 1024 * l2 + 32768 * l3 + 1048576 * l4) as u32;
            &&& w == l0 + 32 * l1 + 1024 * l2 + 32768 * l3 + 1048576 * l4
            &&& (w >> 0) & 0x1f == l0
            &&& (w >> 5) & 0x1f == l1
            &&& (w >> 10) & 0x1f == l2
            &&& (w >> 15) & 0x1f == l3
            &&& (w >> 20) & 0x1f == l4
            &&& w < 0x200_0000
        }),
{
}

/// Packing a text and unpacking the word gives the text back.
pub proof fn lemma_unpack_pack(s: Seq<u8>)
    requires
        spells_word(s),
    ensures
        0 <= word_of(s) < 0x200_0000,
        valid_word(word_of(s) as Word),
        text_of(word_of(s) as Word) == s,
{
    let l0 = (s[0] - 0x61) as u32;
    let l1 = (s[1] - 0x61) as u32;
    let l2 = (s[2] - 0x61) as u32;
    let l3 = (s[3] - 0x61) as u32;
    let l4 = (s[4] - 0x61) as u32;
    lemma_letters_of_sum(l0, l1, l2, l3, l4);
    let w = word_of(s) as Word;
    assert(letter(w, 0) == l0);
    assert(letter(w, 1) == l1);
    assert(letter(w, 2) == l2);
    assert(letter(w, 3) == l3);
    assert(letter(w, 4) == l4);
    assert(text_of(w) =~= s);
}

/// Unpacking a well-formed word and packing the text gives the word back.
pub proof fn lemma_pack_unpack(w: Word)
    requires
        valid_word(w),
    ensures
        spells_word(text_of(w)),
        word_of(text_of(w)) == w,
{
    assert(w >> 25 == 0) by (bit_vector)
        requires
            w < 0x200_0000,
    ;
    lemma_word_is_sum(w);
    assert(letter(w, 0) < 26 && letter(w, 1) < 26 && letter(w, 2) < 26 && letter(w, 3) < 26
        && letter(w, 4) < 26);
    assert forall|i: int| 0 <= i < 5 implies 0x61 <= #[trigger] text_of(w)[i] <= 0x7a by {
        assert(letter(w, i) < 26);
    }
}

} // verus!
