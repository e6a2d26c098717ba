use toakue::letters::{filter, Error, GraphResult, Grapheme, GraphsIter, Letter, Tone};

#[test]
fn letters_parse_from_characters() {
    assert_eq!(Letter::try_from('a'), Ok(Letter::A));
    assert_eq!(Letter::try_from('A'), Ok(Letter::A));
    assert_eq!(Letter::try_from('ı'), Ok(Letter::I));
    assert_eq!(Letter::try_from('W'), Ok(Letter::V));
    assert_eq!(Letter::try_from('ꝡ'), Ok(Letter::V));
    assert_eq!(Letter::try_from('\''), Ok(Letter::Aomoi));
    assert_eq!(Letter::try_from('x'), Err(Error::NotToaqChar('x')));
    assert_eq!(Letter::try_from('X'), Err(Error::NotToaqChar('X')));
}

#[test]
fn digraphs_with_h() {
    assert_eq!(Letter::build_h_digraph('c'), Some(Letter::Ch));
    assert_eq!(Letter::build_h_digraph('n'), Some(Letter::Nh));
    assert_eq!(Letter::build_h_digraph('s'), Some(Letter::Sh));
    assert_eq!(Letter::build_h_digraph('t'), None);
}

#[test]
fn letter_and_tone_ranks() {
    assert_eq!(Letter::Aomoi.rank(), 0);
    assert_eq!(Letter::Ch.rank(), 4);
    assert_eq!(Letter::Z.rank(), 26);
    assert_eq!(Tone::Toneless.rank(), 0);
    assert_eq!(Tone::Adjunct.rank(), 4);
    assert!(Letter::C < Letter::Ch && Letter::Ch < Letter::D);
}

#[test]
fn spelling_filter() {
    assert!(filter('a'));
    assert!(filter('\u{0301}'));
    assert!(!filter(' '));
    assert!(!filter('-'));
    assert!(!filter('«'));
    assert!(!filter('?'));
}

#[test]
fn graphemes_of_a_word() {
    let mut it = GraphsIter::new("ch\u{00e9}q");
    assert_eq!(
        it.next(),
        GraphResult::Graph(Grapheme { tone: Tone::Verb, letter: Letter::Ch, underdot: false })
    );
    assert_eq!(
        it.next(),
        GraphResult::Graph(Grapheme { tone: Tone::Noun, letter: Letter::E, underdot: false })
    );
    assert_eq!(
        it.next(),
        GraphResult::Graph(Grapheme { tone: Tone::Verb, letter: Letter::Q, underdot: false })
    );
    assert_eq!(it.next(), GraphResult::Finished);
    assert_eq!(it.next(), GraphResult::Finished);
}

#[test]
fn graphemes_with_grave_and_underdot() {
    // A grave accent anywhere makes unmarked vowels toneless.
    let mut it = GraphsIter::new("pa\u{0300}-a\u{0323}");
    assert_eq!(
        it.next(),
        GraphResult::Graph(Grapheme { tone: Tone::Toneless, letter: Letter::P, underdot: false })
    );
    assert_eq!(
        it.next(),
        GraphResult::Graph(Grapheme { tone: Tone::Verb, letter: Letter::A, underdot: true })
    );
    assert_eq!(
        it.next(),
        GraphResult::Graph(Grapheme { tone: Tone::Toneless, letter: Letter::A, underdot: true })
    );
    assert_eq!(it.next(), GraphResult::Finished);
}

#[test]
fn capital_c_does_not_start_a_digraph() {
    let mut it = GraphsIter::new("Cha");
    assert_eq!(
        it.next(),
        GraphResult::Graph(Grapheme { tone: Tone::Verb, letter: Letter::C, underdot: false })
    );
    assert_eq!(
        it.next(),
        GraphResult::Graph(Grapheme { tone: Tone::Verb, letter: Letter::H, underdot: false })
    );
}

#[test]
fn graphemes_stop_at_foreign_characters() {
    let mut it = GraphsIter::new("ax");
    assert_eq!(
        it.next(),
        GraphResult::Graph(Grapheme { tone: Tone::Verb, letter: Letter::A, underdot: false })
    );
    assert_eq!(it.next(), GraphResult::Invalid(Error::NotToaqChar('x')));
    assert!(GraphsIter::new("pax").will_fail());
    assert!(!GraphsIter::new("pa ba").will_fail());
}
