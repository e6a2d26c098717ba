use toakue::letters::{GraphResult, Grapheme, GraphsIter, Letter, Tone};
use toakue::numbering::{complement_indices, number_name};
use toakue::toadua::{normalize_lowered, split_into_raku};

#[test]
fn training_indices_outside_a_fold() {
    assert_eq!(complement_indices(6, &vec![4, 1, 9]), vec![0, 2, 3, 5]);
    assert_eq!(complement_indices(3, &vec![]), vec![0, 1, 2]);
    assert_eq!(complement_indices(2, &vec![0, 1, 1]), Vec::<usize>::new());
}

#[test]
fn names_numbered_by_first_sight() {
    let mut names: Vec<String> = Vec::new();
    assert_eq!(number_name(&mut names, "c 0"), 0);
    assert_eq!(number_name(&mut names, "c c"), 1);
    assert_eq!(number_name(&mut names, "c 0"), 0);
    assert_eq!(number_name(&mut names, "0"), 2);
    assert_eq!(names, vec!["c 0".to_string(), "c c".to_string(), "0".to_string()]);
}

#[test]
fn lowered_text_normalized() {
    let lower: Vec<char> = "po\u{0301} a-ı\u{0323}".chars().collect();
    assert_eq!(normalize_lowered(&lower), "po'aı".chars().collect::<Vec<_>>());
    let lower: Vec<char> = "pa\u{0301} ıq".chars().collect();
    assert_eq!(normalize_lowered(&lower), "pa'iq".chars().collect::<Vec<_>>());
}

#[test]
fn marks_keep_raku() {
    assert_eq!(split_into_raku("Pahí!"), split_into_raku("Pahi"));
    assert_eq!(split_into_raku("pa\u{0323}hı\u{0308}"), split_into_raku("pahı"));
    assert_eq!(split_into_raku("«Tóaq»"), Some(vec!["toaq".to_string()]));
}

#[test]
fn segmenting_decomposed_text() {
    let mut it = GraphsIter::from_decomposed("pa".chars().collect(), Tone::Toneless);
    assert_eq!(
        it.next(),
        GraphResult::Graph(Grapheme { tone: Tone::Toneless, letter: Letter::P, underdot: false })
    );
    assert_eq!(
        it.next(),
        GraphResult::Graph(Grapheme { tone: Tone::Toneless, letter: Letter::A, underdot: false })
    );
    assert_eq!(it.next(), GraphResult::Finished);
}
