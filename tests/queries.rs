use std::cmp::Ordering;
use word_catalog::catalog::{
    candidate_positions, filter_accepts, get_difficulties, get_random_word, get_topics,
    matching_positions, WordEntry,
};
use word_catalog::order::{compare, insert_ordered, rank_of};
use word_catalog::text::{chars_of, text_cmp, text_eq_ignore_case};

fn entry(word: &str, topic: &str, difficulty: &str) -> WordEntry {
    WordEntry::new(word.to_string(), topic.to_string(), difficulty.to_string())
}

fn animals() -> Vec<WordEntry> {
    vec![
        entry("cat", "Animals", "Easy"),
        entry("dog", "Animals", "Easy"),
        entry("lion", "Animals", "Hard"),
    ]
}

fn strings(v: &[&str]) -> Vec<String> {
    v.iter().map(|s| s.to_string()).collect()
}

#[test]
fn exclusion_leaves_the_other_easy_animal() {
    let words = animals();
    for _ in 0..100 {
        let e = get_random_word(&words, Some("Animals"), Some("Easy"), Some("cat")).unwrap();
        assert_eq!(e.word, "dog");
        assert_eq!(e.topic, "Animals");
        assert_eq!(e.difficulty, "Easy");
    }
}

#[test]
fn exclusion_is_waived_for_a_single_match() {
    let words = vec![entry("cat", "Animals", "Easy")];
    for _ in 0..20 {
        let e = get_random_word(&words, Some("Animals"), None, Some("cat")).unwrap();
        assert_eq!(e.word, "cat");
    }
}

#[test]
fn unknown_topic_finds_nothing() {
    let words = animals();
    assert!(get_random_word(&words, Some("Space"), None, None).is_none());
}

#[test]
fn difficulties_in_preferred_order() {
    let words = vec![
        entry("a", "T", "Hard"),
        entry("b", "T", "Kids"),
        entry("c", "T", "Easy"),
        entry("d", "T", "Zany"),
    ];
    assert_eq!(get_difficulties(&words, None), strings(&["Easy", "Hard", "Kids", "Zany"]));
}

#[test]
fn random_word_passes_filters_ignoring_case() {
    let mut words = animals();
    words.push(entry("apple", "Food", "Easy"));
    words.push(entry("mango", "food", "Medium"));
    for _ in 0..100 {
        let e = get_random_word(&words, Some("FOOD"), None, None).unwrap();
        assert!(e.topic.eq_ignore_ascii_case("food"));
        assert!(e.word == "apple" || e.word == "mango");
        let h = get_random_word(&words, None, Some("hard"), None).unwrap();
        assert_eq!(h.word, "lion");
    }
    assert!(get_random_word(&words, Some("Food"), Some("Hard"), None).is_none());
}

#[test]
fn random_word_without_filters_draws_from_all() {
    let words = animals();
    for _ in 0..50 {
        let e = get_random_word(&words, None, None, None).unwrap();
        assert!(["cat", "dog", "lion"].contains(&e.word.as_str()));
    }
}

#[test]
fn excluded_word_never_returned_when_alternatives_exist() {
    let words = animals();
    for _ in 0..100 {
        let e = get_random_word(&words, Some("animals"), None, Some("DOG")).unwrap();
        assert_ne!(e.word, "dog");
    }
}

#[test]
fn exclusion_of_every_match_finds_nothing() {
    let words = vec![entry("cat", "Animals", "Easy"), entry("CAT", "Animals", "Easy")];
    assert!(get_random_word(&words, None, None, Some("cat")).is_none());
    assert_eq!(candidate_positions(&words, None, None, Some("cat")), Vec::<usize>::new());
}

#[test]
fn empty_catalog() {
    let words: Vec<WordEntry> = Vec::new();
    assert!(get_random_word(&words, None, None, None).is_none());
    assert!(get_random_word(&words, None, None, Some("cat")).is_none());
    assert!(get_topics(&words).is_empty());
    assert!(get_difficulties(&words, None).is_empty());
}

#[test]
fn topics_sorted_and_distinct() {
    let words = vec![
        entry("rocket", "Space", "Hard"),
        entry("cat", "Animals", "Easy"),
        entry("bread", "Food", "Easy"),
        entry("dog", "Animals", "Easy"),
        entry("ant", "animals", "Kids"),
    ];
    assert_eq!(get_topics(&words), strings(&["Animals", "Food", "Space", "animals"]));
}

#[test]
fn difficulties_filtered_by_topic() {
    let words = vec![
        entry("a", "Animals", "Zany"),
        entry("b", "animals", "Adults"),
        entry("c", "Animals", "Alpha"),
        entry("d", "ANIMALS", "Medium"),
        entry("e", "Food", "Easy"),
        entry("f", "Animals", "Medium"),
    ];
    assert_eq!(
        get_difficulties(&words, Some("Animals")),
        strings(&["Medium", "Adults", "Alpha", "Zany"])
    );
    assert_eq!(get_difficulties(&words, Some("Food")), strings(&["Easy"]));
    assert!(get_difficulties(&words, Some("Space")).is_empty());
    assert_eq!(
        get_difficulties(&words, None),
        strings(&["Easy", "Medium", "Adults", "Alpha", "Zany"])
    );
}

#[test]
fn difficulty_priority_is_case_exact() {
    let words = vec![entry("a", "T", "easy"), entry("b", "T", "Kids"), entry("c", "T", "Easy")];
    assert_eq!(get_difficulties(&words, None), strings(&["Easy", "Kids", "easy"]));
}

#[test]
fn listings_repeat_identically() {
    let mut words = animals();
    words.push(entry("bread", "Food", "Medium"));
    words.push(entry("owl", "Birds", "Zany"));
    assert_eq!(get_topics(&words), get_topics(&words));
    assert_eq!(get_difficulties(&words, None), get_difficulties(&words, None));
    assert_eq!(get_difficulties(&words, Some("animals")), get_difficulties(&words, Some("animals")));
}

#[test]
fn matching_and_candidates() {
    let words = animals();
    assert_eq!(matching_positions(&words, Some("animals"), Some("EASY")), vec![0, 1]);
    assert_eq!(matching_positions(&words, None, None), vec![0, 1, 2]);
    assert_eq!(candidate_positions(&words, None, None, Some("Lion")), vec![0, 1]);
    assert_eq!(candidate_positions(&words, None, Some("hard"), Some("lion")), vec![2]);
    assert_eq!(candidate_positions(&words, None, None, Some("tiger")), vec![0, 1, 2]);
}

#[test]
fn filter_acceptance() {
    assert!(filter_accepts(None, "anything"));
    assert!(filter_accepts(Some("aNiMaLs"), "Animals"));
    assert!(!filter_accepts(Some("Animal"), "Animals"));
}

#[test]
fn ascii_case_folding_only() {
    assert!(text_eq_ignore_case("Hello", "hELLO"));
    assert!(!text_eq_ignore_case("Héllo", "HÉLLO"));
    assert!(text_eq_ignore_case("", ""));
    assert!(!text_eq_ignore_case("a", ""));
    assert!(!text_eq_ignore_case("[", "{"));
}

#[test]
fn lexicographic_comparison() {
    assert_eq!(text_cmp("apple", "banana"), Ordering::Less);
    assert_eq!(text_cmp("app", "apple"), Ordering::Less);
    assert_eq!(text_cmp("Zebra", "apple"), Ordering::Less);
    assert_eq!(text_cmp("pear", "pear"), Ordering::Equal);
    assert_eq!(text_cmp("pears", "pear"), Ordering::Greater);
    assert_eq!(text_cmp("é", "z"), Ordering::Greater);
    assert_eq!(chars_of("héllo"), vec!['h', 'é', 'l', 'l', 'o']);
}

#[test]
fn ranks_and_orders() {
    assert_eq!(rank_of("Easy"), 0);
    assert_eq!(rank_of("Medium"), 1);
    assert_eq!(rank_of("Hard"), 2);
    assert_eq!(rank_of("Kids"), 3);
    assert_eq!(rank_of("Adults"), 4);
    assert_eq!(rank_of("easy"), 5);
    assert_eq!(rank_of("Zany"), 5);
    assert_eq!(compare("Hard", "Easy", true), Ordering::Greater);
    assert_eq!(compare("Hard", "Easy", false), Ordering::Greater);
    assert_eq!(compare("Easy", "Adults", true), Ordering::Less);
    assert_eq!(compare("Easy", "Adults", false), Ordering::Greater);
    assert_eq!(compare("Kids", "Kids", true), Ordering::Equal);
    assert_eq!(compare("Adults", "Alpha", true), Ordering::Less);
    assert_eq!(compare("Zany", "Alpha", true), Ordering::Greater);
}

#[test]
fn ordered_insertion() {
    let mut list: Vec<String> = Vec::new();
    for s in ["pear", "apple", "pear", "fig", "apple"] {
        insert_ordered(&mut list, s.to_string(), false);
    }
    assert_eq!(list, strings(&["apple", "fig", "pear"]));
    let mut ranked: Vec<String> = Vec::new();
    for s in ["Zany", "Kids", "Easy", "Alpha", "Kids"] {
        insert_ordered(&mut ranked, s.to_string(), true);
    }
    assert_eq!(ranked, strings(&["Easy", "Kids", "Alpha", "Zany"]));
}

#[test]
fn duplicate_copies_fields() {
    let e = entry("cat", "Animals", "Easy");
    let d = e.duplicate();
    assert_eq!((d.word, d.topic, d.difficulty), (e.word, e.topic, e.difficulty));
}
