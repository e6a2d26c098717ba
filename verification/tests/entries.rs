use toakue::dedup::{choose_keeper, dictify, EntryKey};
use toakue::toadua::{is_made_of_raku, normalize_for_validation, split_into_raku, Note, Toa};
use toakue::toakao::{attach_tags, tag_map, ToakaoEntry};

fn entry(head: &str, body: &str, user: &str) -> Toa {
    Toa {
        id: String::new(),
        date: String::new(),
        head: head.to_string(),
        body: body.to_string(),
        user: user.to_string(),
        notes: Vec::new(),
        score: 0,
        scope: "en".to_string(),
        warn: false,
        frame: None,
        animacy: None,
        distribution: None,
        subject: None,
        tags: None,
    }
}

fn note(date: &str, content: &str) -> Note {
    Note { date: date.to_string(), user: "someone".to_string(), content: content.to_string() }
}

#[test]
fn normalization_for_validation() {
    assert_eq!(normalize_for_validation("Pó a"), "po'a");
    assert_eq!(normalize_for_validation("Hụ́ı."), "huı");
}

#[test]
fn raku_of_words() {
    assert_eq!(split_into_raku("toaq"), Some(vec!["toaq".to_string()]));
    assert_eq!(split_into_raku("Pahı"), Some(vec!["pa".to_string(), "hı".to_string()]));
    assert_eq!(split_into_raku("xyz"), None);
    assert!(is_made_of_raku("kuaı"));
    assert!(!is_made_of_raku("strength"));
}

#[test]
fn warnings() {
    let mut ok = entry("toaq", "", "someone");
    ok.set_warning();
    assert!(!ok.warn);

    let mut cluster = entry("aeq", "", "someone");
    cluster.set_warning();
    assert!(cluster.warn);

    let mut old = entry("toaq", "", "oldofficial");
    old.set_warning();
    assert!(old.warn);

    let mut foreign = entry("toaq2", "", "someone");
    foreign.set_warning();
    assert!(foreign.warn);

    let mut textspeak = entry("aeq", "textspeak for something", "someone");
    textspeak.set_warning();
    assert!(!textspeak.warn);

    let mut noted = entry("aeq", "", "someone");
    noted.notes.push(note("", "this is textspeak"));
    noted.set_warning();
    assert!(!noted.warn);
}

#[test]
fn note_dates_become_timestamps() {
    let mut t = entry("toaq", "", "someone");
    t.notes.push(note("Tue, 1 Jul 2003 10:52:37 +0200", "a"));
    t.notes.push(note("2020-01-01", "b"));
    t.fix_note_dates();
    assert_eq!(t.notes.len(), 2);
    assert_eq!(t.notes[0].date, "2003-07-01T08:52:37Z");
    assert_eq!(t.notes[0].content, "a");
    assert_eq!(t.notes[1].date, "2020-01-01");
}

#[test]
fn metadata_presence_and_cleanup() {
    let mut t = entry("toaq", "▯ is a word", "someone");
    assert!(!t.has_metadata());
    t.subject = Some("undefined".to_string());
    assert!(t.has_metadata());
    assert!(t.fixup_metadata());
    assert_eq!(t.subject.as_deref(), Some("undefined"));

    let mut u = entry("toaq", "a word", "someone");
    u.frame = Some("undefined".to_string());
    u.distribution = Some("d".to_string());
    assert!(!u.fixup_metadata());
    assert!(u.frame.is_none() && u.distribution.is_none() && !u.has_metadata());
}

#[test]
fn readable_form() {
    let mut t = entry("pa", "b", "u");
    t.warn = true;
    t.score = 3;
    t.id = "i1".to_string();
    t.date = "d".to_string();
    t.notes.push(Note { date: "nd".to_string(), user: "nu".to_string(), content: "nc".to_string() });
    assert_eq!(t.to_string(), "⚠ pa +3 `en` @u #i1 d\nb\nnu (nd): nc");

    let mut z = entry("ba", "body", "v");
    z.id = "7".to_string();
    z.date = "then".to_string();
    assert_eq!(z.to_string(), "ba ± `en` @v #7 then\nbody");
    z.score = -1;
    assert_eq!(z.to_string(), "ba -1 `en` @v #7 then\nbody");
}

#[test]
fn clone_keeps_everything() {
    let mut t = entry("pa", "b", "u");
    t.notes.push(note("x", "y"));
    t.tags = Some("t".to_string());
    let c = t.clone();
    assert!(c == t);
}

#[test]
fn keys_of_duplicates() {
    let a = entry("pa", "b", "u");
    let mut b = entry("pa", "b", "u");
    b.score = 5;
    b.notes.push(note("x", "y"));
    assert!(EntryKey::from_toa(&a) == EntryKey::from_toa(&b));
    let c = entry("pa", "other", "u");
    assert!(!(EntryKey::from_toa(&a) == EntryKey::from_toa(&c)));
}

#[test]
fn keeper_of_duplicates() {
    let mut a = entry("pa", "b", "u");
    a.notes.push(note("x", "This is a Duplicate"));
    let mut b = entry("pa", "b", "u");
    b.score = 1;
    b.date = "2020".to_string();
    let mut c = entry("pa", "b", "u");
    c.score = 1;
    c.date = "2021".to_string();
    let d = entry("pa", "b", "u");
    let entries = vec![a, b, c, d];
    assert_eq!(choose_keeper(&entries, &[0, 1, 2, 3]), 2);
    assert_eq!(choose_keeper(&entries, &[0, 3]), 3);
    assert_eq!(choose_keeper(&entries, &[1, 3]), 1);
    assert_eq!(choose_keeper(&entries, &[0]), 0);
}

#[test]
fn keeper_with_one_unnoted_entry_takes_the_first() {
    let mut a = entry("pa", "b", "u");
    a.notes.push(note("x", "old"));
    let b = entry("pa", "b", "u");
    let mut c = entry("pa", "b", "u");
    c.notes.push(note("x", "new"));
    let entries = vec![a, b, c];
    assert_eq!(choose_keeper(&entries, &[0, 1, 2]), 0);
    assert_eq!(choose_keeper(&entries, &[2, 1]), 2);
    assert_eq!(choose_keeper(&entries, &[0, 2]), 0);
}

#[test]
fn dictionary_from_entries() {
    let mut kept = entry("pa", "b", "u");
    kept.date = "2020-01-01".to_string();
    let mut dup = entry("pa", "b", "u");
    dup.scope = "en-arch".to_string();
    dup.date = "2020-01-02".to_string();
    dup.notes.push(note("x", "duplicate of the other"));
    let mut low = entry("ba", "c", "u");
    low.score = -2;
    let mut spam = entry("ma", "d", "u");
    spam.date = "2025-09-21T12:00:00Z".to_string();
    let bo = entry("bo", "e", "u");
    let dict = dictify(vec![kept, dup, low, spam, bo]);
    let heads: Vec<&str> = dict.iter().map(|t| t.head.as_str()).collect();
    assert_eq!(heads, vec!["bo", "pa"]);
    assert_eq!(dict[1].date, "2020-01-01");
    assert_eq!(dict[1].scope, "en");
}

#[test]
fn archived_scope_is_current() {
    let mut t = entry("pa", "b", "u");
    t.scope = "toa-arch".to_string();
    let dict = dictify(vec![t]);
    assert_eq!(dict.len(), 1);
    assert_eq!(dict[0].scope, "toa");
}

#[test]
fn tags_from_toakao() {
    let map = tag_map(vec![
        ToakaoEntry { lemma: "pa".to_string(), tags: Some("a b".to_string()) },
        ToakaoEntry { lemma: "ba".to_string(), tags: Some(String::new()) },
        ToakaoEntry { lemma: "ma".to_string(), tags: None },
    ]);
    assert_eq!(map.len(), 1);
    assert_eq!(map.get("pa").map(String::as_str), Some("a b"));

    let mut dict = vec![entry("pa", "", "u"), entry("ma", "", "u")];
    attach_tags(&mut dict, &map);
    assert_eq!(dict[0].tags.as_deref(), Some("a b"));
    assert_eq!(dict[1].tags, None);
}

#[test]
fn dictionary_has_no_duplicate_keys() {
    let mut entries = Vec::new();
    for (i, head) in ["pa", "ba", "pa", "pa", "ba", "ma"].iter().enumerate() {
        let mut t = entry(head, "b", "u");
        t.id = i.to_string();
        t.score = i as i32;
        entries.push(t);
    }
    let dict = dictify(entries);
    let keys: Vec<(String, String, String, String)> = dict
        .iter()
        .map(|t| (t.head.clone(), t.body.clone(), t.scope.clone(), t.user.clone()))
        .collect();
    let mut unique = keys.clone();
    unique.sort();
    unique.dedup();
    assert_eq!(unique.len(), keys.len());
    assert_eq!(dict.len(), 3);
}
