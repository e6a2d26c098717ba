use toakue::guess_metadata::Field;
use toakue::tally::Tally;

#[test]
fn tally_counts_frames_per_class_and_arity() {
    let mut t = Tally::new();
    t.record(Field::Frame, "c 0", "c 0", 2);
    assert_eq!((t.correct, t.total), (1, 1));
    assert_eq!(t.per_class, vec![("c 0".to_string(), 1, 1)]);
    assert_eq!(t.per_arity, vec![(2, 1, 1)]);
    t.record(Field::Frame, "c c", "c 0", 2);
    t.record(Field::Frame, "c", "c", 1);
    assert_eq!((t.correct, t.total), (2, 3));
    assert_eq!(
        t.per_class,
        vec![("c 0".to_string(), 1, 1), ("c c".to_string(), 0, 1), ("c".to_string(), 1, 1)]
    );
    assert_eq!(t.per_arity, vec![(2, 1, 2), (1, 1, 1)]);
    assert!(t.per_slot.is_empty());
    assert_eq!((t.slot_correct, t.slot_total), (0, 0));
}

#[test]
fn tally_counts_distribution_slots() {
    let mut t = Tally::new();
    t.record(Field::Distribution, "d n", "d d", 2);
    assert_eq!((t.correct, t.total), (0, 1));
    assert_eq!((t.slot_correct, t.slot_total), (1, 2));
    assert_eq!(t.per_slot, vec![(1, 1), (0, 1)]);
    t.record(Field::Distribution, "d", "d  d", 1);
    assert_eq!((t.slot_correct, t.slot_total), (2, 4));
    assert_eq!(t.per_slot, vec![(2, 2), (0, 2)]);
    t.record(Field::Distribution, "n  d", "n d", 2);
    assert_eq!((t.correct, t.total), (1, 3));
    assert_eq!(t.per_class[2], ("n  d".to_string(), 1, 1));
    assert!(t.per_arity.is_empty());
}

#[test]
fn tally_counts_other_fields_by_text() {
    let mut t = Tally::new();
    t.record(Field::Pronoun, "hoq", "hoq", 0);
    t.record(Field::Pronoun, "maq", "hoq", 0);
    t.record(Field::Pronoun, "hoq", "maq", 0);
    assert_eq!((t.correct, t.total), (1, 3));
    assert_eq!(t.per_class, vec![("hoq".to_string(), 1, 2), ("maq".to_string(), 0, 1)]);
    assert!(t.per_arity.is_empty() && t.per_slot.is_empty());
}
