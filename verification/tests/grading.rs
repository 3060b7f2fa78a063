use wordle::naive;
use wordle::packed;
use wordle::sensible;
use wordle::squeeze;
use wordle::{str_from_word, word_from_str, Word, BLACK, GREEN, YELLOW};

const NB: naive::Color = naive::Color::Black;
const NY: naive::Color = naive::Color::Yellow;
const NG: naive::Color = naive::Color::Green;
const SB: sensible::Color = sensible::Color::Black;
const SY: sensible::Color = sensible::Color::Yellow;
const SG: sensible::Color = sensible::Color::Green;

fn word(s: &str) -> Word {
    word_from_str(s.as_bytes()).unwrap()
}

#[test]
fn naive_horsehorse() {
    let graded = naive::grade("horse", "horse");
    assert_eq!(graded, vec![naive::Color::Green; 5]);
}

#[test]
fn naive_roseshorse() {
    let graded = naive::grade("roses", "horse");
    assert_eq!(graded, vec![NY, NG, NY, NY, NB]);
}

#[test]
fn packed_horsehorse() {
    let graded = packed::grade(
        word_from_str(b"horse").unwrap(),
        word_from_str(b"horse").unwrap(),
    );
    println!("{graded:b}");
    assert_eq!(graded, GREEN * 0b0101010101);
}

#[test]
fn packed_roseshorse() {
    let graded = packed::grade(
        word_from_str(b"roses").unwrap(),
        word_from_str(b"horse").unwrap(),
    );
    println!("{graded:b}");
    assert_eq!(
        graded,
        YELLOW | (GREEN << 2) | (YELLOW << 4) | (YELLOW << 6) | (BLACK << 8)
    );
}

#[test]
fn squeeze_horsehorse() {
    let graded = squeeze::grade(
        word_from_str(b"horse").unwrap(),
        word_from_str(b"horse").unwrap(),
    );
    println!("{graded:b}");
    assert_eq!(graded, 0b1010101010);
}

#[test]
fn squeeze_roseshorse() {
    let graded = squeeze::grade(
        word_from_str(b"roses").unwrap(),
        word_from_str(b"horse").unwrap(),
    );
    println!("{graded:b}");
    assert_eq!(
        graded,
        YELLOW | (GREEN << 2) | (YELLOW << 4) | (YELLOW << 6) | (BLACK << 8)
    );
}

#[test]
fn simd_4x() {
    let words = [
        word_from_str(b"roses").unwrap(),
        word_from_str(b"horse").unwrap(),
        word_from_str(b"roses").unwrap(),
        word_from_str(b"horse").unwrap(),
    ];
    let solns = [
        word_from_str(b"roses").unwrap(),
        word_from_str(b"roses").unwrap(),
        word_from_str(b"horse").unwrap(),
        word_from_str(b"horse").unwrap(),
    ];

    let seq_grades: [_; 4] = std::array::from_fn(|i| squeeze::grade(words[i], solns[i]));
    let simd_grades = squeeze::gradel(words, solns);

    for i in 0..4 {
        println!("seq: {:b}, simd: {:b}", seq_grades[i], simd_grades[i]);
        assert_eq!(seq_grades[i], simd_grades[i] as u16);
    }
}

#[test]
fn aahed() {
    let word = word_from_str(b"aahed").unwrap();
    let words = [word];
    let solns = [5800643];
    let seq_grades = solns.map(|soln| squeeze::grade(word, soln));
    let simd_grades = squeeze::gradel(words, solns);

    for i in 0..simd_grades.len() {
        println!(
            "word {}, soln {}",
            word,
            core::str::from_utf8(&str_from_word(solns[i])).unwrap()
        );
        println!("seq: {:b}, simd: {:b}", seq_grades[i], simd_grades[i]);
        assert_eq!(seq_grades[i], simd_grades[i] as u16);
    }
}

#[test]
fn aahed_against_dwarf_exact() {
    // a a h e d  against  d w a r f: one a and the d are in the answer, elsewhere
    let graded = squeeze::gradel([word("aahed")], [word("dwarf")]);
    assert_eq!(graded, [0b01_00_00_00_01]);
}

#[test]
fn sensible_horsehorse() {
    let graded = sensible::grade(*b"horse", *b"horse");
    assert_eq!(graded, [sensible::Color::Green; 5]);
}

#[test]
fn sensible_roseshorse() {
    let graded = sensible::grade(*b"roses", *b"horse");
    assert_eq!(graded, [SY, SG, SY, SY, SB]);
}

#[test]
fn same_word_is_all_green_in_every_variant() {
    for text in ["horse", "roses", "aaaaa", "zzzzz", "eppee", "abcde"] {
        let w = word(text);
        assert_eq!(packed::grade(w, w), 0b1010101010);
        assert_eq!(squeeze::grade(w, w), 0b1010101010);
        assert_eq!(squeeze::gradel([w, w], [w, w]), [0b1010101010, 0b1010101010]);
        assert_eq!(naive::grade(text, text), vec![naive::Color::Green; 5]);
        let mut bytes = [0u8; 5];
        bytes.copy_from_slice(text.as_bytes());
        assert_eq!(sensible::grade(bytes, bytes), [sensible::Color::Green; 5]);
    }
}

#[test]
fn leftmost_repeated_letter_wins_the_yellow() {
    // the answer has one unmatched `e`; the guess asks for it three times
    let graded = squeeze::grade(word("eeexx"), word("abcde"));
    assert_eq!(graded, YELLOW);
    assert_eq!(
        naive::grade("eeexx", "abcde"),
        vec![NY, NB, NB, NB, NB]
    );
}

#[test]
fn green_is_taken_out_of_the_bank_first() {
    // the only `e` of the answer is matched at position 4, so none is left
    let graded = packed::grade(word("eabce"), word("xxxxe"));
    assert_eq!(graded, GREEN << 8);
    assert_eq!(
        sensible::grade(*b"eabce", *b"xxxxe"),
        [SB, SB, SB, SB, SG]
    );
}

#[test]
fn nothing_in_common_is_all_black() {
    assert_eq!(squeeze::grade(word("abcde"), word("vwxyz")), 0);
    assert_eq!(squeeze::gradel([word("abcde")], [word("vwxyz")]), [0]);
}

#[test]
fn letters_of_every_bank_segment() {
    // a..j, k..t and u..z are kept in different segments of a lane's bank
    let pairs = [
        ("abjkt", "bajtk"),
        ("uvwxy", "vuxwz"),
        ("ajktu", "uajkt"),
        ("zzzaa", "aazzz"),
        ("kkjjt", "jjkkt"),
        ("ttuuu", "utttu"),
    ];
    for (guess, answer) in pairs {
        let scalar = squeeze::grade(word(guess), word(answer));
        let batch = squeeze::gradel([word(guess)], [word(answer)]);
        assert_eq!(batch[0], scalar as u32, "{guess} against {answer}");
        assert_eq!(packed::grade(word(guess), word(answer)), scalar);
    }
    assert_eq!(
        squeeze::gradel([word("ajktu")], [word("uajkt")]),
        [0b01_01_01_01_01]
    );
    assert_eq!(
        squeeze::gradel([word("zzzaa")], [word("aazzz")]),
        [0b01_01_10_01_01]
    );
}

const SAMPLE: [&str; 12] = [
    "roses", "hores", "eppee", "blobo", "gleeg", "dwarf", "wefts", "lowes", "horse", "aahed",
    "zzzzz", "queue",
];

fn check_width<const L: usize>() {
    for (n, guess) in SAMPLE.iter().enumerate() {
        let guesses: [Word; L] = std::array::from_fn(|i| word(SAMPLE[(n + i) % SAMPLE.len()]));
        let answers: [Word; L] =
            std::array::from_fn(|i| word(SAMPLE[(n + 5 * i + 3) % SAMPLE.len()]));
        let batch = squeeze::gradel(guesses, answers);
        for i in 0..L {
            assert_eq!(
                batch[i],
                squeeze::grade(guesses[i], answers[i]) as u32,
                "lane {i} of {L}, first guess {guess}"
            );
        }
    }
}

#[test]
fn batch_equals_scalar_at_every_width() {
    check_width::<1>();
    check_width::<2>();
    check_width::<4>();
    check_width::<8>();
    check_width::<16>();
    check_width::<32>();
    check_width::<64>();
}

#[test]
fn all_variants_agree_on_sample_pairs() {
    for guess in SAMPLE {
        for answer in SAMPLE {
            let packed_grade = packed::grade(word(guess), word(answer));
            assert_eq!(squeeze::grade(word(guess), word(answer)), packed_grade);
            let by_text = naive::grade(guess, answer);
            let mut g = [0u8; 5];
            let mut a = [0u8; 5];
            g.copy_from_slice(guess.as_bytes());
            a.copy_from_slice(answer.as_bytes());
            let by_bytes = sensible::grade(g, a);
            for i in 0..5 {
                let code = (packed_grade >> (2 * i)) & 0b11;
                let from_text = match by_text[i] {
                    naive::Color::Black => BLACK,
                    naive::Color::Yellow => YELLOW,
                    naive::Color::Green => GREEN,
                };
                let from_bytes = match by_bytes[i] {
                    sensible::Color::Black => BLACK,
                    sensible::Color::Yellow => YELLOW,
                    sensible::Color::Green => GREEN,
                };
                assert_eq!(code, from_text);
                assert_eq!(code, from_bytes);
            }
        }
    }
}

#[test]
fn marks_on_a_letter_stay_within_the_answer() {
    for guess in SAMPLE {
        for answer in SAMPLE {
            let graded = squeeze::grade(word(guess), word(answer));
            for letter in b'a'..=b'z' {
                let marked = (0..5)
                    .filter(|&i| {
                        guess.as_bytes()[i] == letter && (graded >> (2 * i)) & 0b11 != BLACK
                    })
                    .count();
                let in_answer = answer.bytes().filter(|&b| b == letter).count();
                assert!(marked <= in_answer);
            }
        }
    }
}

#[test]
fn naive_grades_words_of_other_lengths() {
    assert_eq!(naive::grade("", ""), vec![]);
    assert_eq!(naive::grade("ab", "ba"), vec![NY, NY]);
    assert_eq!(
        naive::grade("banana", "cabana"),
        vec![NY, NG, NB, NG, NG, NG]
    );
    assert_eq!(naive::grade("aab", "abc"), vec![NG, NB, NY]);
}

#[test]
fn naive_leaves_out_what_one_word_has_beyond_the_other() {
    // only the first two letters of each are held against each other
    assert_eq!(naive::grade("abcd", "ba"), vec![NY, NY]);
    assert_eq!(naive::grade("ab", "bacd"), vec![NY, NY]);
    assert_eq!(naive::grade("ab", "xyab"), vec![NB, NB]);
    assert_eq!(naive::grade("horse", ""), vec![]);
}

#[test]
fn naive_counts_letters_not_bytes() {
    assert_eq!(naive::grade("\u{e9}t\u{e9}", "t\u{e9}t"), vec![NY, NY, NB]);
    assert_eq!(naive::grade("na\u{ef}f", "na\u{ef}f"), vec![NG, NG, NG, NG]);
}

/// A small generator of repeatable pseudo-random words over few letters, so
/// that repeated letters and matches are frequent.
struct Words(u64);

impl Words {
    fn next_letter(&mut self, spread: u64) -> u8 {
        self.0 = self
            .0
            .wrapping_mul(6364136223846793005)
            .wrapping_add(1442695040888963407);
        b'a' + ((self.0 >> 33) % spread) as u8
    }

    fn next_text(&mut self, spread: u64) -> [u8; 5] {
        std::array::from_fn(|_| self.next_letter(spread))
    }
}

/// Grades by the rules as they are told: greens first, then yellows from the
/// left out of what the answer has left.
fn grade_by_the_book(guess: [u8; 5], answer: [u8; 5]) -> u16 {
    let mut left: Vec<u8> = Vec::new();
    let mut graded = 0u16;
    for i in 0..5 {
        if guess[i] == answer[i] {
            graded |= GREEN << (2 * i);
        } else {
            left.push(answer[i]);
        }
    }
    for i in 0..5 {
        if guess[i] != answer[i] {
            if let Some(at) = left.iter().position(|&b| b == guess[i]) {
                left.remove(at);
                graded |= YELLOW << (2 * i);
            }
        }
    }
    graded
}

#[test]
fn generated_pairs_agree_with_the_rules() {
    let mut words = Words(2024);
    for round in 0..6000 {
        let spread = [2, 3, 5, 11, 21, 26][round % 6];
        let guess = words.next_text(spread);
        let answer = words.next_text(spread);
        let expected = grade_by_the_book(guess, answer);
        let g = word_from_str(&guess).unwrap();
        let a = word_from_str(&answer).unwrap();
        assert_eq!(packed::grade(g, a), expected);
        assert_eq!(squeeze::grade(g, a), expected);
        assert_eq!(squeeze::gradel([g], [a]), [expected as u32]);
        let by_bytes = sensible::grade(guess, answer);
        let by_text = naive::grade(
            core::str::from_utf8(&guess).unwrap(),
            core::str::from_utf8(&answer).unwrap(),
        );
        for i in 0..5 {
            let code = (expected >> (2 * i)) & 0b11;
            assert_eq!(by_bytes[i] as u16, code);
            assert_eq!(by_text[i] as u16, code);
        }
    }
}

#[test]
fn generated_batches_agree_with_scalar() {
    let mut words = Words(7);
    for round in 0..400 {
        let spread = [3, 9, 26, 26][round % 4];
        let guesses: [Word; 16] =
            std::array::from_fn(|_| word_from_str(&words.next_text(spread)).unwrap());
        let answers: [Word; 16] =
            std::array::from_fn(|_| word_from_str(&words.next_text(spread)).unwrap());
        let batch = squeeze::gradel(guesses, answers);
        for lane in 0..16 {
            assert_eq!(batch[lane], squeeze::grade(guesses[lane], answers[lane]) as u32);
        }
    }
}
