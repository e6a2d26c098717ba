use toakue::data::{n2t, t2n, tones};
use toakue::features::{
    boundary_slot, char_ngrams, extract_features, extract_features_extra, field_examples,
    field_feature_tokens, field_training_examples, is_field_example, labels_agree, metadata_features,
    slot_agreement, slot_boundary_features, tokenize,
};
use toakue::folds::grouped_stratified_folds;
use toakue::guess_metadata::{
    arity_metadata_consistent, deterministic_hash, frame_last_slot, primary_arity,
    valid_frame_last_slot, valid_frame_value, FeatureFlags, Field,
};
use toakue::heuristics::{guess_distribution_heuristic, guess_frame_heuristic};
use toakue::toadua::Toa;
use toakue::token_counts::token_entry_counts;

fn entry(head: &str, body: &str) -> Toa {
    Toa {
        id: String::new(),
        date: String::new(),
        head: head.to_string(),
        body: body.to_string(),
        user: "u".to_string(),
        notes: Vec::new(),
        score: 0,
        scope: "en".to_string(),
        warn: false,
        frame: None,
        animacy: None,
        distribution: None,
        subject: None,
        tags: None,
    }
}

fn strings(v: &[&str]) -> Vec<String> {
    v.iter().map(|s| s.to_string()).collect()
}

fn all_on() -> FeatureFlags {
    FeatureFlags::default()
}

#[test]
fn tone_marks_and_numbers() {
    assert_eq!(t2n('\u{0300}'), 1);
    assert_eq!(t2n('\u{0301}'), 2);
    assert_eq!(t2n('\u{0308}'), 3);
    assert_eq!(t2n('\u{0302}'), 4);
    for n in 1..=4 {
        assert_eq!(t2n(n2t(n)), n);
    }
}

#[test]
fn tone_keys_of_heads() {
    assert_eq!(tones("pó"), Some(("po".to_string(), vec![2], vec![1])));
    assert_eq!(tones("pa"), Some(("pa".to_string(), vec![1], vec![1])));
    assert_eq!(tones("pa-"), Some(("pa".to_string(), vec![9], vec![1])));
}

#[test]
fn feature_flags_from_text() {
    let (flags, unknown) = FeatureFlags::parse("no-boundary, char-ngrams,,bogus");
    assert!(!flags.boundary_indexed && !flags.boundary_anydist && !flags.boundary_bigram);
    assert!(flags.char_ngrams && flags.raku_last2);
    assert_eq!(unknown, strings(&["bogus"]));

    let (flags, unknown) = FeatureFlags::parse("no-raku-last2,indexed");
    assert!(!flags.raku_last2 && flags.boundary_indexed && flags.boundary_anydist);
    assert!(unknown.is_empty());

    let (flags, _) = FeatureFlags::parse("");
    assert!(flags.boundary_indexed && flags.char_ngrams && flags.raku_last2);
}

#[test]
fn fields_and_values() {
    assert_eq!(Field::Frame.name(), "frame");
    assert_eq!(Field::Subject.name(), "subject");
    let mut t = entry("pa", "▯ is");
    t.animacy = Some("hó".to_string());
    assert_eq!(Field::Pronoun.get(&t).map(String::as_str), Some("hó"));
    assert_eq!(Field::Frame.get(&t), None);
    assert!(Field::Pronoun.valid_value("máq"));
    assert!(!Field::Pronoun.valid_value("ho"));
    assert!(Field::Subject.valid_value("sF"));
    assert!(!Field::Subject.valid_value("sX"));
    assert!(Field::Frame.valid_value("c"));
    assert!(!Field::Distribution.valid_value(""));
}

#[test]
fn frame_slot_labels() {
    assert!(valid_frame_last_slot("c", 1));
    assert!(valid_frame_last_slot("0", 2));
    assert!(valid_frame_last_slot("1x", 2));
    assert!(!valid_frame_last_slot("1j", 2));
    assert!(valid_frame_last_slot("2ij", 3));
    assert!(!valid_frame_last_slot("2i", 3));
    assert!(!valid_frame_last_slot("", 2));
    assert!(!valid_frame_last_slot("c", 0));
    assert!(!valid_frame_last_slot("1i", 5));
    assert!(valid_frame_last_slot("c", 5));
    assert!(valid_frame_value("c c 1i", 3));
    assert!(!valid_frame_value("c 1i", 3));
    assert!(!valid_frame_value("1i c", 2));
    assert_eq!(frame_last_slot("c  1i "), Some("1i".to_string()));
    assert_eq!(frame_last_slot("  "), None);
}

#[test]
fn arity_of_definitions() {
    assert_eq!(primary_arity("▯ likes ▯; ▯ is good."), (2, "▯ likes ▯".to_string()));
    assert_eq!(primary_arity("▯ is; ▯ is"), (1, " ▯ is".to_string()));
    assert_eq!(primary_arity("nothing"), (0, String::new()));
    let mut t = entry("pa", "▯ likes ▯");
    t.frame = Some("c c".to_string());
    assert!(arity_metadata_consistent(&t));
    t.distribution = Some("d".to_string());
    assert!(!arity_metadata_consistent(&t));
}

#[test]
fn stable_hash() {
    assert_eq!(deterministic_hash(""), 0xcbf2_9ce4_8422_2325);
    assert_eq!(deterministic_hash("a"), 0xaf63_dc4c_8601_ec8c);
    assert_eq!(deterministic_hash("pa"), 0x08d5_4707_b575_62ca);
}

#[test]
fn tokens_of_text() {
    assert_eq!(
        tokenize("The ▯ is_A Good-day _X"),
        strings(&["the", "▯", "is_a", "good", "day", "_X"])
    );
    assert_eq!(tokenize("▯▯"), strings(&["▯", "▯"]));
    assert!(tokenize(" ,; ").is_empty());
}

#[test]
fn character_ngrams() {
    assert_eq!(char_ngrams("AbC", 2, 3), strings(&["_C2_ab", "_C2_bc", "_C3_abc"]));
    assert!(char_ngrams("a", 2, 3).is_empty());
    assert_eq!(char_ngrams("a\u{7}b", 2, 2), Vec::<String>::new());
}

#[test]
fn metadata_and_tag_features() {
    let mut t = entry("pa", "▯ is");
    t.frame = Some("c 1i".to_string());
    t.distribution = Some("d d".to_string());
    t.tags = Some(" Foo  bar ".to_string());
    assert_eq!(
        metadata_features(&t, Field::Frame),
        strings(&[
            "_KNOWN_DISTRIBUTION_dd",
            "_MISSING_PRONOUN",
            "_MISSING_SUBJECT",
            "_TAG_foo",
            "_TAG_bar"
        ])
    );
    assert_eq!(
        metadata_features(&t, Field::Subject),
        strings(&[
            "_KNOWN_FRAME_c1i",
            "_KNOWN_DISTRIBUTION_dd",
            "_MISSING_PRONOUN",
            "_TAG_foo",
            "_TAG_bar"
        ])
    );
}

#[test]
fn features_around_a_slot() {
    assert_eq!(
        slot_boundary_features("a b ▯ c d", Some(0), 4, all_on()),
        strings(&[
            "_BOUND_BEFORE_1_b",
            "_BOUND_BEFORE_ANYDIST_b",
            "_BOUND_BEFORE_2_a",
            "_BOUND_BEFORE_ANYDIST_a",
            "_BOUND_AFTER_1_c",
            "_BOUND_AFTER_ANYDIST_c",
            "_BOUND_AFTER_2_d",
            "_BOUND_AFTER_ANYDIST_d",
            "_BOUND_BEFORE_BI_a_b",
            "_BOUND_AFTER_BI_c_d"
        ])
    );
    let (only_indexed, _) = FeatureFlags::parse("no-anydist,no-bigram");
    assert_eq!(
        slot_boundary_features("x y z ▯", Some(0), 2, only_indexed),
        strings(&["_BOUND_BEFORE_1_z", "_BOUND_BEFORE_2_y"])
    );
    assert!(slot_boundary_features("a ▯ b", None, 4, all_on()).is_empty());
    assert!(slot_boundary_features("a ▯ b", Some(1), 4, all_on()).is_empty());
    assert_eq!(boundary_slot(Field::Frame, "▯ x ▯", None), Some(1));
    assert_eq!(boundary_slot(Field::Frame, "none", Some(2)), Some(0));
    assert_eq!(boundary_slot(Field::Distribution, "▯", Some(3)), Some(3));
    assert_eq!(boundary_slot(Field::Pronoun, "▯", Some(3)), None);
}

#[test]
fn features_of_an_entry() {
    let t = entry("pa", "▯ is big");
    assert_eq!(
        extract_features(&t, Field::Pronoun, all_on()),
        strings(&[
            "▯",
            "is",
            "big",
            "_RAKU_LAST_pa",
            "_RAKU_FIRST_pa",
            "_ARITY_1",
            "_C2_pa",
            "_MISSING_FRAME",
            "_MISSING_DISTRIBUTION",
            "_MISSING_SUBJECT",
            "_BIAS"
        ])
    );
    let u = entry("Pahı", "▯ sees ▯");
    let (flags, _) = FeatureFlags::parse("no-char-ngrams,no-anydist,no-bigram");
    assert_eq!(
        extract_features_extra(&u, Field::Distribution, Some(1), flags),
        strings(&[
            "▯",
            "sees",
            "▯",
            "_RAKU_LAST_hı",
            "_RAKU_FIRST_pa",
            "_RAKU_LAST2_pa_hı",
            "_ARITY_2",
            "_CAPS",
            "_MISSING_FRAME",
            "_MISSING_PRONOUN",
            "_MISSING_SUBJECT",
            "_BOUND_BEFORE_1_sees",
            "_BOUND_BEFORE_2_▯",
            "_DIST_SLOT_1_OF_2",
            "_BIAS"
        ])
    );
}

fn annotated(head: &str, body: &str, frame: &str, distribution: &str) -> Toa {
    let mut t = entry(head, body);
    t.frame = Some(frame.to_string());
    t.distribution = Some(distribution.to_string());
    t
}

#[test]
fn examples_to_learn_from() {
    let good = annotated("pa", "▯ sees ▯", "c c", "d n");
    let mut warned = good.clone();
    warned.warn = true;
    let prefix = annotated("pa-", "▯ sees ▯", "c c", "d n");
    let bad_frame = annotated("ba", "▯ sees ▯", "c 1j", "d n");
    let too_many = annotated("ma", "▯ ▯ ▯ ▯", "c c c c", "d d d d");
    assert!(is_field_example(&good, Field::Frame));
    assert!(!is_field_example(&good, Field::Subject));
    assert!(!is_field_example(&warned, Field::Frame));
    assert!(!is_field_example(&prefix, Field::Frame));
    assert!(!is_field_example(&bad_frame, Field::Frame));
    assert!(is_field_example(&bad_frame, Field::Distribution));
    assert!(!is_field_example(&too_many, Field::Distribution));
    let dict = vec![good, warned, prefix, bad_frame, too_many];
    let frames: Vec<&str> = field_examples(&dict, Field::Frame).iter().map(|t| t.head.as_str()).collect();
    assert_eq!(frames, vec!["pa"]);
    let dists: Vec<&str> =
        field_examples(&dict, Field::Distribution).iter().map(|t| t.head.as_str()).collect();
    assert_eq!(dists, vec!["pa", "ba"]);
}

#[test]
fn training_examples_and_feature_sets() {
    let t = annotated("pa", "▯ sees ▯", "c 1i", "d n");
    let (flags, _) = FeatureFlags::parse("no-char-ngrams");
    let refs = vec![&t];
    let frames = field_training_examples(&refs, Field::Frame, flags);
    assert_eq!(frames.len(), 1);
    assert_eq!(frames[0].1, "1i");
    assert_eq!(frames[0].0, extract_features(&t, Field::Frame, flags));
    let dists = field_training_examples(&refs, Field::Distribution, flags);
    assert_eq!(dists.len(), 2);
    assert_eq!(dists[0].1, "d");
    assert_eq!(dists[1].1, "n");
    assert_eq!(dists[1].0, extract_features_extra(&t, Field::Distribution, Some(1), flags));
    assert!(field_training_examples(&refs, Field::Subject, flags).is_empty());

    let sets = field_feature_tokens(&t, Field::Distribution, flags);
    assert_eq!(sets.len(), 2);
    assert_eq!(sets[0], extract_features_extra(&t, Field::Distribution, Some(0), flags));
    let frame_sets = field_feature_tokens(&t, Field::Frame, flags);
    assert_eq!(frame_sets, vec![extract_features(&t, Field::Frame, flags)]);
}

#[test]
fn frame_heuristic() {
    assert_eq!(guess_frame_heuristic("▯ is the case", 1), "0");
    assert_eq!(guess_frame_heuristic("▯ has the property ▯", 2), "c 1i");
    assert_eq!(guess_frame_heuristic("▯ makes ▯ satisfy ▯", 3), "c c 1i");
    assert_eq!(guess_frame_heuristic("▯ gets ▯ doing ▯", 3), "c c 1j");
    assert_eq!(guess_frame_heuristic("▯ is doing ▯", 1), "1x");
    assert_eq!(guess_frame_heuristic("▯ is in relation ▯", 2), "c 2ix");
    assert_eq!(guess_frame_heuristic("▯ runs", 1), "c");
    assert_eq!(guess_frame_heuristic("▯ knows that ▯", 2), "c 0");
    assert_eq!(guess_frame_heuristic("anything", 0), "");
    assert_eq!(guess_frame_heuristic("abchappens", 1), "0");
}

#[test]
fn distribution_heuristic() {
    assert_eq!(guess_distribution_heuristic(&entry("pa", "▯ and ▯ meet"), 2), "n n");
    assert_eq!(guess_distribution_heuristic(&entry("pa", "▯ love Each Other"), 2), "n d");
    assert_eq!(guess_distribution_heuristic(&entry("fagua", "▯ is ▯"), 2), "n d");
    assert_eq!(guess_distribution_heuristic(&entry("pa", "▯ gives ▯ to ▯"), 3), "d d d");
    assert_eq!(guess_distribution_heuristic(&entry("pa", "▯"), 0), "");
}

#[test]
fn folds_keep_heads_together() {
    let a1 = annotated("a", "▯ is", "c", "d");
    let b = annotated("b", "▯ is", "c", "d");
    let a2 = annotated("a", "▯ is", "c", "d");
    let refs = vec![&a1, &b, &a2];
    // "b" hashes higher than "a", so its group is placed first.
    let folds = grouped_stratified_folds(&refs, Field::Frame, 2);
    assert_eq!(folds, vec![vec![1], vec![0, 2]]);
    let folds = grouped_stratified_folds(&refs, Field::Frame, 9);
    assert_eq!(folds, vec![vec![1], vec![0, 2], vec![]]);
    let none: Vec<&Toa> = Vec::new();
    assert_eq!(grouped_stratified_folds(&none, Field::Frame, 5), vec![Vec::<usize>::new(), Vec::new()]);
}

#[test]
fn folds_spread_labels() {
    let x = annotated("x", "▯ is", "c", "d");
    let y = annotated("y", "▯ is", "0", "d");
    let z = annotated("z", "▯ is", "c", "d");
    let refs = vec![&x, &y, &z];
    let folds = grouped_stratified_folds(&refs, Field::Frame, 2);
    let mut all: Vec<usize> = folds.iter().flatten().copied().collect();
    all.sort_unstable();
    assert_eq!(all, vec![0, 1, 2]);
    assert_eq!(folds.len(), 2);
    // The two entries labelled `c` never share a fold while another is empty.
    assert!(!folds.iter().any(|f| f.contains(&0) && f.contains(&2)));
}

#[test]
fn tokens_counted_by_entry() {
    let a = annotated("pa", "▯ sees ▯ sees", "c c", "d d");
    let b = annotated("ba", "▯ runs", "c", "d");
    let (flags, _) = FeatureFlags::parse("no-char-ngrams,no-boundary");
    let dict = vec![a, b];
    let counts = token_entry_counts(&dict, Field::Frame, None, flags);
    let get = |tok: &str| counts.iter().find(|(t, _)| t == tok).map(|(_, c)| *c);
    // "sees" twice in one entry counts once.
    assert_eq!(get("sees"), Some(1));
    assert_eq!(get("▯"), Some(2));
    assert_eq!(get("_BIAS"), Some(2));
    assert_eq!(get("runs"), Some(1));
    assert_eq!(get("nothing"), None);
    let mut names: Vec<&str> = counts.iter().map(|(t, _)| t.as_str()).collect();
    let total = names.len();
    names.sort_unstable();
    names.dedup();
    assert_eq!(names.len(), total);
    let only_two = token_entry_counts(&dict, Field::Frame, Some(2), flags);
    assert!(only_two.iter().all(|(t, _)| t != "runs"));
    assert_eq!(only_two.iter().find(|(t, _)| t == "▯").map(|(_, c)| *c), Some(1));
}

#[test]
fn folds_split_every_example_once() {
    let heads = ["a", "b", "a", "c", "d", "b", "e"];
    let entries: Vec<Toa> = heads.iter().map(|h| annotated(h, "▯ is", "c", "d")).collect();
    let refs: Vec<&Toa> = entries.iter().collect();
    for k in 0..6 {
        let folds = grouped_stratified_folds(&refs, Field::Frame, k);
        let mut all: Vec<usize> = folds.iter().flatten().copied().collect();
        all.sort_unstable();
        assert_eq!(all, (0..heads.len()).collect::<Vec<_>>());
        for f in &folds {
            for &i in f {
                for (j, h) in heads.iter().enumerate() {
                    if *h == heads[i] {
                        assert!(f.contains(&j));
                    }
                }
            }
        }
    }
}

#[test]
fn heuristic_frames_are_well_formed() {
    let bodies = [
        "▯ is the case",
        "▯ has the property ▯",
        "▯ makes ▯ satisfy ▯",
        "▯ gets ▯ doing ▯ to ▯",
        "▯ is in relation ▯",
        "▯ runs",
        "▯ knows that ▯",
        "abc affairs ▯",
    ];
    for body in bodies {
        for n in 1..=4 {
            let frame = guess_frame_heuristic(body, n);
            assert!(valid_frame_value(&frame, n), "{frame:?} for {n} slots");
        }
    }
}

#[test]
fn agreement_of_guesses() {
    assert!(labels_agree(Field::Distribution, "d  n", " d n"));
    assert!(!labels_agree(Field::Distribution, "d n", "d d"));
    assert!(!labels_agree(Field::Frame, "c  1i", "c 1i"));
    assert!(labels_agree(Field::Frame, "c 1i", "c 1i"));
    assert_eq!(slot_agreement("d n d", "d d"), vec![true, false, false]);
    assert_eq!(slot_agreement("n", " n "), vec![true]);
    assert!(slot_agreement("", "").is_empty());
}

#[test]
fn metadata_features_hide_the_guessed_field() {
    let mut a = entry("pa", "▯ is big");
    a.frame = Some("c".to_string());
    a.distribution = Some("d".to_string());
    a.tags = Some("big, size".to_string());
    let mut b = entry("pa", "▯ is big");
    b.frame = None;
    b.distribution = Some("d".to_string());
    b.tags = Some("big, size".to_string());
    assert_eq!(metadata_features(&a, Field::Frame), metadata_features(&b, Field::Frame));
    assert_ne!(metadata_features(&a, Field::Distribution), metadata_features(&b, Field::Distribution));
}
