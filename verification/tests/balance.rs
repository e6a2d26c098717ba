use toakue::balance::{largest_label_count, oversample_to};

fn ex(feature: &str, label: &str) -> (Vec<String>, String) {
    (vec![feature.to_string()], label.to_string())
}

#[test]
fn largest_label() {
    assert_eq!(largest_label_count(&Vec::new()), 1);
    let examples = vec![ex("a", "sI"), ex("b", "sA"), ex("c", "sI"), ex("d", "sE")];
    assert_eq!(largest_label_count(&examples), 2);
}

#[test]
fn rare_labels_repeated() {
    let examples = vec![ex("a", "sI"), ex("b", "sA"), ex("c", "sI"), ex("d", "sI"), ex("e", "sE"), ex("f", "sE")];
    let out = oversample_to(&examples, 3);
    let features: Vec<&str> = out.iter().map(|(f, _)| f[0].as_str()).collect();
    // The examples, then "sA" (b) twice more, then "sE" (e, f) once more each in turn.
    assert_eq!(features, vec!["a", "b", "c", "d", "e", "f", "b", "b", "e"]);
    let labels: Vec<&str> = out.iter().map(|(_, l)| l.as_str()).collect();
    assert_eq!(&labels[6..], &["sA", "sA", "sE"]);
}

#[test]
fn nothing_added_at_target() {
    let examples = vec![ex("a", "x"), ex("b", "y")];
    let out = oversample_to(&examples, 1);
    assert_eq!(out, examples);
    assert!(oversample_to(&Vec::new(), 5).is_empty());
}
