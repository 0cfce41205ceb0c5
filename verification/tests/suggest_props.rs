use dictcore::edit_distance;
use dictcore::suggest_words;
use dictcore::Record;
use dictcore::Vocabulary;

fn rec(word: &str, definition: &str) -> Record {
    Record {
        rank: 1,
        word: word.to_string(),
        pro: String::new(),
        pos: String::new(),
        tag: String::new(),
        definition: definition.to_string(),
    }
}

fn sample_vocabulary() -> Vocabulary {
    let mut v = Vocabulary::new();
    assert!(v.insert(rec("cat", "a small cat")));
    assert!(v.insert(rec("cats", "several cats")));
    assert!(v.insert(rec("bat", "a flying bat")));
    assert!(v.insert(rec("dog", "a loyal dog")));
    v
}

#[test]
fn zero_limit_gives_no_suggestions() {
    let v = sample_vocabulary();
    let r = suggest_words("cat", 0, &v);
    assert!(r.is_empty());

    let empty = Vocabulary::new();
    let r = suggest_words("cat", 0, &empty);
    assert!(r.is_empty());
}

#[test]
fn suggestions_for_cat_are_sorted_matches() {
    let v = sample_vocabulary();
    let r = suggest_words("cat", 10, &v);
    assert_eq!(r, vec!["bat".to_string(), "cat".to_string(), "cats".to_string()]);
}

#[test]
fn empty_vocabulary_gives_no_suggestions() {
    let v = Vocabulary::new();
    assert!(suggest_words("cat", 10, &v).is_empty());
    assert!(suggest_words("", 10, &v).is_empty());
}

#[test]
fn limit_caps_the_count_and_keeps_the_smallest() {
    let v = sample_vocabulary();
    let r = suggest_words("cat", 2, &v);
    assert_eq!(r, vec!["bat".to_string(), "cat".to_string()]);
    let r = suggest_words("cat", 1, &v);
    assert_eq!(r, vec!["bat".to_string()]);
    let r = suggest_words("cat", 3, &v);
    assert_eq!(r.len(), 3);
}

#[test]
fn results_are_sorted_distinct_matching_vocabulary_keys() {
    let mut v = Vocabulary::new();
    for w in ["apple", "apply", "ample", "maple", "app", "appl", "banana"] {
        assert!(v.insert(rec(w, "fruit or not")));
    }
    let query = "apple";
    let r = suggest_words(query, 10, &v);
    assert!(!r.is_empty());
    for w in &r {
        // every suggestion is a vocabulary key ...
        assert!(v.get(w).is_some());
        // ... and qualifies by distance or prefix
        assert!(edit_distance(w, query) <= 1 || w.starts_with(query));
    }
    // sorted strictly ascending: no duplicates
    for pair in r.windows(2) {
        assert!(pair[0] < pair[1]);
    }
}

#[test]
fn suggest_is_deterministic_for_identical_inputs() {
    let v = sample_vocabulary();
    let first = suggest_words("cat", 2, &v);
    let second = suggest_words("cat", 2, &v);
    assert_eq!(first, second);
}

#[test]
fn query_present_in_vocabulary_suggests_itself() {
    let v = sample_vocabulary();
    let r = suggest_words("dog", 10, &v);
    assert_eq!(r, vec!["dog".to_string()]);
}

#[test]
fn first_record_wins_on_duplicate_words() {
    let mut v = Vocabulary::new();
    assert!(v.insert(rec("cat", "first definition")));
    assert!(!v.insert(rec("cat", "second definition")));
    let got = v.get("cat").expect("cat must be present");
    assert_eq!(got.definition, "first definition");
}

#[test]
fn get_and_contains_agree() {
    let v = sample_vocabulary();
    assert!(v.contains_key("cat"));
    assert!(!v.contains_key("zebra"));
    assert!(v.get("zebra").is_none());
    let bat = v.get("bat").expect("bat must be present");
    assert_eq!(bat.word, "bat");
    assert_eq!(bat.definition, "a flying bat");
}
