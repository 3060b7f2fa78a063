//! Bit-level facts on the packed forms: the 2-bit marks of a grade under
//! construction, and the 3-bit letter counts of a bank held in one integer.

use vstd::prelude::*;

verus! {

/// The count that a packed bank holds for the letter `c`: its `c`-th 3-bit
/// field.
pub open spec fn bank_count(bank: u128, c: int) -> int {
    ((bank >> ((3 * c) as u128)) & 7) as int
}

/// A packed bank that uses only the fields of the 32 letter values.
pub open spec fn bank_fits(bank: u128) -> bool {
    bank >> 96 == 0
}

/// The mark that a grade under construction holds at position `i`: its
/// `i`-th 2-bit field.
pub open spec fn mark_field(grade: u32, i: int) -> int {
    ((grade >> ((2 * i) as u32)) & 3) as int
}

pub proof fn lemma_bank_empty(c: int)
    requires
        0 <= c < 32,
    ensures
        bank_count(0, c) == 0,
        bank_fits(0),
{
    let k = (3 * c) as u128;
    assert((0u128 >> k) & 7 == 0) by (bit_vector);
    assert(0u128 >> 96 == 0) by (bit_vector);
}

proof fn lemma_bank_put_bits(bank: u128, c: u128, d: u128)
    by (bit_vector)
    requires
        c < 32,
        d < 32,
        bank >> 96 == 0,
        (bank >> (3 * c)) & 7 < 7,
    ensures
        bank + (1u128 << (3 * c)) < 0x1_0000_0000_0000_0000_0000_0000,
        ((bank + (1u128 << (3 * c))) as u128) >> 96 == 0,
        (((bank + (1u128 << (3 * c))) as u128) >> (3 * d)) & 7 == (if d == c {
            ((bank >> (3 * c)) & 7) + 1
        } else {
            ((bank >> (3 * d)) & 7) + 0
        }),
{
}

proof fn lemma_bank_take_bits(bank: u128, c: u128, d: u128)
    by (bit_vector)
    requires
        c < 32,
        d < 32,
        bank >> 96 == 0,
        (bank >> (3 * c)) & 7 > 0,
    ensures
        bank >= (1u128 << (3 * c)),
        ((bank - (1u128 << (3 * c))) as u128) >> 96 == 0,
        (((bank - (1u128 << (3 * c))) as u128) >> (3 * d)) & 7 == (if d == c {
            ((bank >> (3 * c)) & 7) - 1
        } else {
            ((bank >> (3 * d)) & 7) - 0
        }),
{
}

/// Adding one to the field of `c` raises that count by one and leaves the
/// other counts as they were, as long as the field is not full.
pub proof fn lemma_bank_put(bank: u128, c: int)
    requires
        0 <= c < 32,
        bank_fits(bank),
        bank_count(bank, c) < 7,
    ensures
        bank + (1u128 << ((3 * c) as u128)) <= u128::MAX,
        bank_fits((bank + (1u128 << ((3 * c) as u128))) as u128),
        forall|d: int|
            0 <= d < 32 ==> #[trigger] bank_count(
                (bank + (1u128 << ((3 * c) as u128))) as u128,
                d,
            ) == bank_count(bank, d) + (if d == c {
                1int
            } else {
                0int
            }),
{
    lemma_bank_put_bits(bank, c as u128, c as u128);
    assert forall|d: int| 0 <= d < 32 implies #[trigger] bank_count(
        (bank + (1u128 << ((3 * c) as u128))) as u128,
        d,
    ) == bank_count(bank, d) + (if d == c {
        1int
    } else {
        0int
    }) by {
        lemma_bank_put_bits(bank, c as u128, d as u128);
    }
}

/// Taking one from the field of `c` lowers that count by one and leaves the
/// other counts as they were, as long as the field is not empty.
pub proof fn lemma_bank_take(bank: u128, c: int)
    requires
        0 <= c < 32,
        bank_fits(bank),
        bank_count(bank, c) > 0,
    ensures
        bank >= (1u128 << ((3 * c) as u128)),
        bank_fits((bank - (1u128 << ((3 * c) as u128))) as u128),
        forall|d: int|
            0 <= d < 32 ==> #[trigger] bank_count(
                (bank - (1u128 << ((3 * c) as u128))) as u128,
                d,
            ) == bank_count(bank, d) - (if d == c {
                1int
            } else {
                0int
            }),
{
    lemma_bank_take_bits(bank, c as u128, c as u128);
    assert forall|d: int| 0 <= d < 32 implies #[trigger] bank_count(
        (bank - (1u128 << ((3 * c) as u128))) as u128,
        d,
    ) == bank_count(bank, d) - (if d == c {
        1int
    } else {
        0int
    }) by {
        lemma_bank_take_bits(bank, c as u128, d as u128);
    }
}

/// The count that one segment of a split bank holds in its `k`-th 3-bit
/// field. A segment has ten fields.
pub open spec fn seg_count(seg: u32, k: int) -> int {
    ((seg >> ((3 * k) as u32)) & 7) as int
}

/// A segment that uses only its ten fields.
pub open spec fn seg_fits(seg: u32) -> bool {
    seg >> 30 == 0
}

/// The count that a bank split into three segments holds for the letter `d`:
/// letters 0 to 9 are in the first segment, 10 to 19 in the second, 20 to 29
/// in the third.
pub open spec fn split_count(segs: Seq<u32>, d: int) -> int {
    if d < 10 {
        seg_count(segs[0], d)
    } else if d < 20 {
        seg_count(segs[1], d - 10)
    } else {
        seg_count(segs[2], d - 20)
    }
}

pub proof fn lemma_seg_empty(k: int)
    requires
        0 <= k < 10,
    ensures
        seg_count(0, k) == 0,
        seg_fits(0),
{
    let s = (3 * k) as u32;
    assert((0u32 >> s) & 7 == 0) by (bit_vector);
    assert(0u32 >> 30 == 0) by (bit_vector);
}

proof fn lemma_seg_put_bits(seg: u32, c: u32, d: u32)
    by (bit_vector)
    requires
        c < 10,
        d < 10,
        seg >> 30 == 0,
        (seg >> (3 * c)) & 7 < 7,
    ensures
        seg + (1u32 << (3 * c)) < 0x4000_0000,
        ((seg + (1u32 << (3 * c))) as u32) >> 30 == 0,
        (((seg + (1u32 << (3 * c))) as u32) >> (3 * d)) & 7 == (if d == c {
            ((seg >> (3 * c)) & 7) + 1
        } else {
            ((seg >> (3 * d)) & 7) + 0
        }),
{
}

proof fn lemma_seg_take_bits(seg: u32, c: u32, d: u32)
    by (bit_vector)
    requires
        c < 10,
        d < 10,
        seg >> 30 == 0,
        (seg >> (3 * c)) & 7 > 0,
    ensures
        seg >= (1u32 << (3 * c)),
        ((seg - (1u32 << (3 * c))) as u32) >> 30 == 0,
        (((seg - (1u32 << (3 * c))) as u32) >> (3 * d)) & 7 == (if d == c {
            ((seg >> (3 * c)) & 7) - 1
        } else {
            ((seg >> (3 * d)) & 7) - 0
        }),
{
}

/// Adding one to a field of a segment raises that count by one and leaves
/// the other counts as they were, as long as the field is not full.
pub proof fn lemma_seg_put(seg: u32, c: int)
    requires
        0 <= c < 10,
        seg_fits(seg),
        seg_count(seg, c) < 7,
    ensures
        seg + (1u32 << ((3 * c) as u32)) <= u32::MAX,
        seg_fits((seg + (1u32 << ((3 * c) as u32))) as u32),
        forall|d: int|
            0 <= d < 10 ==> #[trigger] seg_count((seg + (1u32 << ((3 * c) as u32))) as u32, d)
                == seg_count(seg, d) + (if d == c {
                1int
            } else {
                0int
            }),
{
    lemma_seg_put_bits(seg, c as u32, c as u32);
    assert forall|d: int| 0 <= d < 10 implies #[trigger] seg_count(
        (seg + (1u32 << ((3 * c) as u32))) as u32,
        d,
    ) == seg_count(seg, d) + (if d == c {
        1int
    } else {
        0int
    }) by {
        lemma_seg_put_bits(seg, c as u32, d as u32);
    }
}

/// Taking one from a field of a segment lowers that count by one and leaves
/// the other counts as they were, as long as the field is not empty.
pub proof fn lemma_seg_take(seg: u32, c: int)
    requires
        0 <= c < 10,
        seg_fits(seg),
        seg_count(seg, c) > 0,
    ensures
        seg >= (1u32 << ((3 * c) as u32)),
        seg_fits((seg - (1u32 << ((3 * c) as u32))) as u32),
        forall|d: int|
            0 <= d < 10 ==> #[trigger] seg_count((seg - (1u32 << ((3 * c) as u32))) as u32, d)
                == seg_count(seg, d) - (if d == c {
                1int
            } else {
                0int
            }),
{
    lemma_seg_take_bits(seg, c as u32, c as u32);
    assert forall|d: int| 0 <= d < 10 implies #[trigger] seg_count(
        (seg - (1u32 << ((3 * c) as u32))) as u32,
        d,
    ) == seg_count(seg, d) - (if d == c {
        1int
    } else {
        0int
    }) by {
        lemma_seg_take_bits(seg, c as u32, d as u32);
    }
}

proof fn lemma_shift_in_bits(grade: u32, top: u32, j: u32)
    by (bit_vector)
    requires
        grade >> 10 == 0,
        top <= 3,
        j < 5,
    ensures
        ((grade | (top << 10)) >> 2) >> 10 == 0,
        (((grade | (top << 10)) >> 2) >> (2 * j)) & 3 == (if j == 4 {
            top
        } else {
            (grade >> (2 * (j + 1))) & 3
        }),
{
}

/// Putting a mark above the five fields and shifting down by one field moves
/// every mark one position lower and makes the new mark the last one.
pub proof fn lemma_shift_in(grade: u32, top: u32)
    requires
        grade >> 10 == 0,
        top <= 3,
    ensures
        ((grade | (top << 10)) >> 2) >> 10 == 0,
        forall|j: int|
            0 <= j < 5 ==> #[trigger] mark_field((grade | (top << 10)) >> 2, j) == (if j == 4 {
                top as int
            } else {
                mark_field(grade, j + 1)
            }),
{
    lemma_shift_in_bits(grade, top, 0);
    assert forall|j: int| 0 <= j < 5 implies #[trigger] mark_field(
        (grade | (top << 10)) >> 2,
        j,
    ) == (if j == 4 {
        top as int
    } else {
        mark_field(grade, j + 1)
    }) by {
        lemma_shift_in_bits(grade, top, j as u32);
    }
}

proof fn lemma_set_mark_bits(grade: u32, m: u32, i: u32, j: u32)
    by (bit_vector)
    requires
        grade >> 10 == 0,
        m <= 3,
        i < 5,
        j < 5,
        (grade >> (2 * i)) & 3 == 0,
    ensures
        (grade | (m << (2 * i))) >> 10 == 0,
        ((grade | (m << (2 * i))) >> (2 * j)) & 3 == (if j == i {
            m
        } else {
            (grade >> (2 * j)) & 3
        }),
{
}

/// Or-ing a mark into an empty field sets that mark and leaves the others.
pub proof fn lemma_set_mark(grade: u32, m: u32, i: int)
    requires
        grade >> 10 == 0,
        m <= 3,
        0 <= i < 5,
        mark_field(grade, i) == 0,
    ensures
        (grade | (m << ((2 * i) as u32))) >> 10 == 0,
        forall|j: int|
            0 <= j < 5 ==> #[trigger] mark_field(grade | (m << ((2 * i) as u32)), j) == (if j
                == i {
                m as int
            } else {
                mark_field(grade, j)
            }),
{
    lemma_set_mark_bits(grade, m, i as u32, i as u32);
    assert forall|j: int| 0 <= j < 5 implies #[trigger] mark_field(
        grade | (m << ((2 * i) as u32)),
        j,
    ) == (if j == i {
        m as int
    } else {
        mark_field(grade, j)
    }) by {
        lemma_set_mark_bits(grade, m, i as u32, j as u32);
    }
}

/// Or-ing nothing into a grade leaves it as it was.
pub proof fn lemma_or_nothing(grade: u32)
    ensures
        grade | 0 == grade,
        grade | (0u32 << 10) == grade,
{
    assert(grade | 0 == grade && grade | (0u32 << 10) == grade) by (bit_vector);
}

/// A field is empty exactly when masking it out of the grade leaves nothing.
pub proof fn lemma_field_is_black(grade: u32, i: int)
    requires
        0 <= i < 5,
    ensures
        (grade & (3u32 << ((2 * i) as u32)) == 0) <==> mark_field(grade, i) == 0,
{
    let k = (2 * i) as u32;
    assert((grade & (3u32 << k) == 0) <==> ((grade >> k) & 3 == 0)) by (bit_vector)
        requires
            k < 10,
    ;
}

proof fn lemma_grade16_bits(x: u16, i: u16)
    by (bit_vector)
    requires
        i < 5,
    ensures
        2u16 << 10 == 2048u16,
        (x | (2u16 << 10)) as u32 == (x as u32) | (2u32 << 10),
        (x as u32) | (0u32 << 10) == x as u32,
        (x >> 2) as u32 == (x as u32) >> 2,
        ((x | (2u16 << 10)) >> 2) as u32 == ((x | (2u16 << 10)) as u32) >> 2,
        (x & (3u16 << (2 * i)) == 0) <==> (((x as u32) >> ((2 * i) as u32)) & 3 == 0),
        (x | (1u16 << (2 * i))) as u32 == (x as u32) | (1u32 << ((2 * i) as u32)),
{
}

/// The step of the first pass on a 16-bit grade: a green, or nothing, enters
/// as the last mark and the others move down.
pub proof fn lemma_grade16_shift_in(x: u16, y: u16, green: bool)
    requires
        (x as u32) >> 10 == 0,
        y == (if green {
            x | (2u16 << 10)
        } else {
            x
        }),
    ensures
        ((y >> 2) as u32) >> 10 == 0,
        forall|j: int|
            0 <= j < 5 ==> #[trigger] mark_field((y >> 2) as u32, j) == (if j == 4 {
                if green {
                    2int
                } else {
                    0int
                }
            } else {
                mark_field(x as u32, j + 1)
            }),
{
    lemma_grade16_bits(x, 0);
    let top: u32 = if green {
        2
    } else {
        0
    };
    lemma_shift_in(x as u32, top);
}

/// The step of the second pass on a 16-bit grade: how a black field is
/// told, and what a yellow or-ed into it gives.
pub proof fn lemma_grade16_yellow(x: u16, i: int)
    requires
        0 <= i < 5,
        (x as u32) >> 10 == 0,
    ensures
        (x & (3u16 << ((2 * i) as u16)) == 0) <==> mark_field(x as u32, i) == 0,
        mark_field(x as u32, i) == 0 ==> ((x | (1u16 << ((2 * i) as u16))) as u32) >> 10 == 0,
        mark_field(x as u32, i) == 0 ==> forall|j: int|
            0 <= j < 5 ==> #[trigger] mark_field((x | (1u16 << ((2 * i) as u16))) as u32, j) == (
            if j == i {
                1int
            } else {
                mark_field(x as u32, j)
            }),
{
    lemma_grade16_bits(x, i as u16);
    if mark_field(x as u32, i) == 0 {
        lemma_set_mark(x as u32, 1, i);
    }
}

/// A grade with no mark yet.
pub proof fn lemma_grade_empty()
    ensures
        0u32 >> 10 == 0,
        forall|j: int| 0 <= j < 5 ==> #[trigger] mark_field(0u32, j) == 0,
{
    assert(0u32 >> 10 == 0) by (bit_vector);
    assert forall|j: int| 0 <= j < 5 implies #[trigger] mark_field(0u32, j) == 0 by {
        let s = (2 * j) as u32;
        assert((0u32 >> s) & 3 == 0) by (bit_vector);
    }
}

/// A grade with nothing above its five fields is the sum of its marks, each
/// weighted by its position.
pub proof fn lemma_grade_is_sum(grade: u32)
    requires
        grade >> 10 == 0,
    ensures
        grade == mark_field(grade, 0) + 4 * mark_field(grade, 1) + 16 * mark_field(grade, 2) + 64
            * mark_field(grade, 3) + 256 * mark_field(grade, 4),
{
    assert(grade == ((grade >> 0) & 3) + 4 * ((grade >> 2) & 3) + 16 * ((grade >> 4) & 3) + 64 * ((
    grade >> 6) & 3) + 256 * ((grade >> 8) & 3)) by (bit_vector)
        requires
            grade >> 10 == 0,
    ;
}

/// Two words agree in their lowest letter exactly when the lowest five bits
/// of their exclusive or are clear.
pub proof fn lemma_same_low_letter(a: u32, b: u32)
    ensures
        ((a ^ b) & 0x1f == 0) <==> (a & 0x1f == b & 0x1f),
        a & 0x1f < 32,
{
    assert(((a ^ b) & 0x1f == 0) <==> (a & 0x1f == b & 0x1f)) by (bit_vector);
    assert(a & 0x1f < 32) by (bit_vector);
}

/// Shifting a word down letter by letter reaches the same letters as
/// shifting it at once.
pub proof fn lemma_shift_by_letters(w: u32, k: int)
    requires
        0 <= k < 5,
    ensures
        (w >> ((5 * k) as u32)) >> 5 == w >> ((5 * (k + 1)) as u32),
        (w >> ((5 * k) as u32)) & 0x1f == crate::codec::letter(w, k),
        w >> 0 == w,
{
    let s = (5 * k) as u32;
    let t = (5 * (k + 1)) as u32;
    assert((w >> s) >> 5 == w >> t) by (bit_vector)
        requires
            s <= 20,
            t == s + 5,
    ;
    assert(w >> 0 == w) by (bit_vector);
}

} // verus!
