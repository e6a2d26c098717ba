use toakue::tone_sort::tone_sorted_entries;
use toakue::toadua::Toa;

fn entry(head: &str, score: i32) -> Toa {
    Toa {
        id: String::new(),
        date: String::new(),
        head: head.to_string(),
        body: String::new(),
        user: "u".to_string(),
        notes: Vec::new(),
        score,
        scope: "en".to_string(),
        warn: false,
        frame: None,
        animacy: None,
        distribution: None,
        subject: None,
        tags: None,
    }
}

#[test]
fn entries_in_tone_order() {
    let sorted = tone_sorted_entries(vec![
        entry("pó", 0),
        entry("pa", 0),
        entry("pa", 5),
        entry("ba", -3),
        entry("aeq", -2),
    ])
    .expect("all heads have tone keys");
    let order: Vec<(&str, i32)> = sorted.iter().map(|t| (t.head.as_str(), t.score)).collect();
    assert_eq!(order, vec![("aeq", -2), ("pa", 5), ("pa", 0), ("pó", 0)]);
    let warned: Vec<bool> = sorted.iter().map(|t| t.warn).collect();
    assert_eq!(warned, vec![true, false, false, false]);
}

#[test]
fn stable_among_equal_keys() {
    let mut a = entry("pa", 1);
    a.id = "first".to_string();
    let mut b = entry("pa", 1);
    b.id = "second".to_string();
    let sorted = tone_sorted_entries(vec![a, b]).unwrap();
    assert_eq!(sorted[0].id, "first");
    assert_eq!(sorted[1].id, "second");
}

#[test]
fn missing_tone_key() {
    assert!(tone_sorted_entries(vec![entry("pa", 0), entry("\u{301}a", 0)]).is_none());
    assert!(tone_sorted_entries(vec![entry("\u{301}a", -3)]).is_some());
}
