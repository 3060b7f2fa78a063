use wordle::{stopwatch, str_from_word, word_from_str, N_GRADES};

#[test]
fn packs_first_letter_lowest() {
    // h=7 o=14 r=17 s=18 e=4
    let expected = 7 | (14 << 5) | (17 << 10) | (18 << 15) | (4 << 20);
    assert_eq!(word_from_str(b"horse"), Some(expected));
    assert_eq!(word_from_str(b"aaaaa"), Some(0));
    assert_eq!(word_from_str(b"baaaa"), Some(1));
    assert_eq!(word_from_str(b"aaaab"), Some(1 << 20));
    assert_eq!(word_from_str(b"zzzzz"), Some(25 * 0b00001_00001_00001_00001_00001));
    assert_eq!(word_from_str(b"dwarf"), Some(5800643));
}

#[test]
fn refuses_wrong_length() {
    assert_eq!(word_from_str(b""), None);
    assert_eq!(word_from_str(b"hors"), None);
    assert_eq!(word_from_str(b"horses"), None);
}

#[test]
fn refuses_other_characters() {
    assert_eq!(word_from_str(b"Horse"), None);
    assert_eq!(word_from_str(b"hors3"), None);
    assert_eq!(word_from_str(b"ho se"), None);
    assert_eq!(word_from_str(b"hors{"), None);
    assert_eq!(word_from_str(b"`orse"), None);
    assert_eq!(word_from_str(&[b'h', b'o', b'r', b's', 0xc3]), None);
}

#[test]
fn unpacks_to_the_same_text() {
    for text in [b"horse", b"roses", b"aaaaa", b"zzzzz", b"aahed", b"dwarf"] {
        let w = word_from_str(text).unwrap();
        assert_eq!(&str_from_word(w), text);
    }
    assert_eq!(&str_from_word(5800643), b"dwarf");
    assert_eq!(&str_from_word(0), b"aaaaa");
}

#[test]
fn packs_an_unpacked_word_to_itself() {
    for w in [0u32, 1, 5800643, 25, 25 << 20, 7 | (14 << 5) | (17 << 10) | (18 << 15) | (4 << 20)]
    {
        assert_eq!(word_from_str(&str_from_word(w)), Some(w));
    }
}

#[test]
fn table_size_is_one_past_all_green() {
    assert_eq!(N_GRADES, 683);
    assert_eq!(N_GRADES, 0b1010101010 + 1);
}

#[test]
fn stopwatch_hands_the_result_through() {
    let (res, _elapsed) = stopwatch(|| 6 * 7);
    assert_eq!(res, 42);
    let text = String::from("moved in");
    let (len, elapsed) = stopwatch(move || text.len());
    assert_eq!(len, 8);
    assert!(elapsed.as_secs() < 10);
}
