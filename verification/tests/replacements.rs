use toakue::data::{decoded_chars, key_from_moved, pieces_from_replacements};
use toakue::heuristics::label_from_findings;
use toakue::letters::{Error, Letter};
use toakue::toadua::{normalize_for_validation, split_into_raku};

fn chars(s: &str) -> Vec<char> {
    s.chars().collect()
}

#[test]
fn labels_from_findings() {
    assert_eq!(label_from_findings(true, true, true, true, 3), "0");
    assert_eq!(label_from_findings(false, true, true, false, 3), "1j");
    assert_eq!(label_from_findings(false, true, false, false, 3), "1i");
    assert_eq!(label_from_findings(false, true, true, false, 2), "1i");
    assert_eq!(label_from_findings(false, true, true, false, 1), "1x");
    assert_eq!(label_from_findings(false, false, true, true, 4), "2ij");
    assert_eq!(label_from_findings(false, false, false, true, 2), "2ix");
    assert_eq!(label_from_findings(false, false, false, true, 1), "2xx");
    assert_eq!(label_from_findings(false, false, true, false, 3), "c");
}

#[test]
fn pieces_of_a_word_without_marks() {
    let none: Vec<Option<Vec<char>>> = vec![None, None, None, None];
    assert_eq!(
        pieces_from_replacements(&chars("ba"), Some(chars("ba\u{0300}")), &none),
        Some(vec![chars("ba\u{0300}")])
    );
    assert_eq!(pieces_from_replacements(&chars("ba"), None, &none), None);
}

#[test]
fn pieces_of_marked_words() {
    let none: Vec<Option<Vec<char>>> = vec![None, None, None, None];
    let w = chars("ba\u{0301}");
    assert_eq!(pieces_from_replacements(&w, None, &none), Some(vec![w.clone()]));
    let stems = vec![Some(chars("one")), Some(chars("two")), None, None];
    assert_eq!(
        pieces_from_replacements(&chars("b\u{0323}a"), Some(chars("unused")), &stems),
        Some(vec![chars("one")])
    );
    let w2 = chars("ba\u{0301}\u{0323}");
    assert_eq!(pieces_from_replacements(&w2, None, &stems), Some(vec![w2.clone(), chars("two")]));
    assert_eq!(pieces_from_replacements(&chars("ba\u{0308}\u{0323}"), None, &stems), None);
}

#[test]
fn keys_of_moved_heads() {
    assert_eq!(key_from_moved(&chars("ba\u{0301}")), Some(("ba".to_string(), vec![2], vec![1])));
    assert_eq!(
        key_from_moved(&chars("pa\u{0300} hı\u{0308}-")),
        Some(("pa hı".to_string(), vec![1, 9], vec![1, 4]))
    );
    assert_eq!(key_from_moved(&chars("\u{0301}a")), None);
    assert_eq!(key_from_moved(&chars("pa-")), None);
}

#[test]
fn decoding_replaced_bytes() {
    assert_eq!(decoded_chars(Some(b"ab".to_vec())), Some(vec!['a', 'b']));
    assert_eq!(decoded_chars(Some(vec![0xff])), None);
    assert_eq!(decoded_chars(None), None);
}

#[test]
fn punctuation_keeps_raku() {
    assert_eq!(split_into_raku("ba*la"), split_into_raku("bala"));
    assert_eq!(split_into_raku("Ba.la!"), Some(vec!["ba".to_string(), "la".to_string()]));
    assert_eq!(split_into_raku("\"Toaq\""), split_into_raku("Toaq"));
    assert_eq!(split_into_raku("x-y"), split_into_raku("xy"));
}

#[test]
fn ascii_text_is_lowered_letter_by_letter() {
    assert_eq!(normalize_for_validation("BaLa"), "bala");
    assert_eq!(normalize_for_validation("Ba la"), "bala");
}

#[test]
fn ascii_letters_read_case_insensitively() {
    assert_eq!(Letter::try_from('B'), Ok(Letter::B));
    assert_eq!(Letter::try_from('Z'), Ok(Letter::Z));
    assert_eq!(Letter::try_from('\''), Ok(Letter::Aomoi));
    assert_eq!(Letter::try_from('X'), Err(Error::NotToaqChar('X')));
    assert_eq!(Letter::try_from('?'), Err(Error::NotToaqChar('?')));
}
