use pybites_search::item::Item;
use pybites_search::matcher::{
    compile_search, item_selected, normalize_content_type, render_item, search_items, wants_label,
    InputError, SearchPredicate,
};

fn item(content_type: &str, title: &str, summary: &str, link: &str) -> Item {
    Item {
        content_type: content_type.to_string(),
        title: title.to_string(),
        summary: summary.to_string(),
        link: link.to_string(),
    }
}

fn predicate(terms: &[&str], content_type: Option<&str>, title_only: bool) -> SearchPredicate {
    let terms: Vec<String> = terms.iter().map(|t| t.to_string()).collect();
    compile_search(terms, content_type, title_only).expect("inputs must be valid")
}

#[test]
fn matching_ignores_ascii_case() {
    let it = item("article", "Python Decorators Explained", "", "L");
    let p = predicate(&["python"], None, false);
    assert!(item_selected(&it, &p));
    let p_upper = predicate(&["PYTHON"], None, false);
    assert!(item_selected(&it, &p_upper));
}

#[test]
fn summary_match_is_excluded_in_title_only_mode() {
    let it = item("article", "Intro", "all about python tricks", "L");
    let title_only = predicate(&["python"], None, true);
    assert!(!item_selected(&it, &title_only));
    let both = predicate(&["python"], None, false);
    assert!(item_selected(&it, &both));
}

#[test]
fn terms_must_occur_in_the_given_order() {
    let it = item("article", "Intro to Regex", "", "L");
    assert!(item_selected(&it, &predicate(&["Intro", "Regex"], None, false)));
    assert!(!item_selected(&it, &predicate(&["Regex", "Intro"], None, false)));
    assert!(item_selected(&it, &predicate(&["in", "to", "regex"], None, false)));
}

#[test]
fn shorthand_and_full_name_filter_identically() {
    let items = vec![
        item("article", "Intro to Regex", "basics", "L1"),
        item("bite", "Regex Bite", "practice", "L2"),
    ];
    let with_shorthand = search_items(&items, &predicate(&["regex"], Some("a"), false));
    let with_full_name = search_items(&items, &predicate(&["regex"], Some("article"), false));
    assert_eq!(with_shorthand, with_full_name);
    assert_eq!(with_shorthand.len(), 1);
    assert_eq!(with_shorthand[0].title, "Intro to Regex");
}

#[test]
fn content_type_filter_compares_case_insensitively() {
    let items = vec![item("Article", "Intro to Regex", "", "L1")];
    let found = search_items(&items, &predicate(&["regex"], Some("article"), false));
    assert_eq!(found.len(), 1);
}

#[test]
fn every_shorthand_normalizes_to_its_full_name() {
    for (short, full) in [
        ("a", "article"),
        ("b", "bite"),
        ("p", "podcast"),
        ("v", "video"),
        ("t", "tip"),
    ] {
        assert_eq!(normalize_content_type(short).unwrap(), full);
        assert_eq!(normalize_content_type(full).unwrap(), full);
    }
}

#[test]
fn invalid_content_type_is_rejected_with_all_options_listed() {
    match normalize_content_type("xyz") {
        Err(InputError::InvalidContentType { given }) => assert_eq!(given, "xyz"),
        other => panic!("expected an invalid content type error, got {:?}", other),
    }
    let options = InputError::valid_options();
    for pair in [
        "a (article)",
        "b (bite)",
        "p (podcast)",
        "v (video)",
        "t (tip)",
    ] {
        assert!(options.contains(pair));
    }
    // The search never runs on an invalid filter: compilation already fails.
    let r = compile_search(vec!["term".to_string()], Some("xyz"), false);
    assert!(matches!(
        r,
        Err(InputError::InvalidContentType { .. })
    ));
}

#[test]
fn empty_term_list_is_rejected() {
    assert!(matches!(
        compile_search(Vec::new(), None, false),
        Err(InputError::NoSearchTerms)
    ));
}

#[test]
fn selection_is_stable_and_labels_mixed_results() {
    let items = vec![
        item("article", "Intro to Regex", "basics", "L1"),
        item("bite", "Regex Bite", "practice", "L2"),
    ];
    let p = predicate(&["regex"], None, false);
    let found = search_items(&items, &p);
    assert_eq!(found, items);
    assert!(wants_label(&p));
    assert_eq!(render_item(&found[0], true), "[article] Intro to Regex\nL1\n");
    assert_eq!(render_item(&found[1], true), "[bite] Regex Bite\nL2\n");
}

#[test]
fn label_is_omitted_when_a_filter_was_given() {
    let p = predicate(&["regex"], Some("b"), false);
    assert!(!wants_label(&p));
    let it = item("bite", "Regex Bite", "practice", "L2");
    assert_eq!(render_item(&it, false), "Regex Bite\nL2\n");
}

#[test]
fn pattern_metacharacters_in_terms_are_literal_text() {
    let it = item("article", "Intro to Regex", "", "L");
    // A dot matches only a real dot, not any character.
    assert!(!item_selected(&it, &predicate(&["Intr."], None, false)));
    let dotted = item("article", "v1.2 released", "", "L");
    assert!(item_selected(&dotted, &predicate(&["1.2"], None, false)));
    assert!(item_selected(
        &item("tip", "C++ tricks", "", "L"),
        &predicate(&["c++"], None, false)
    ));
}

#[test]
fn zero_matches_yield_an_empty_result() {
    let items = vec![item("article", "Intro to Regex", "basics", "L1")];
    let found = search_items(&items, &predicate(&["quantum"], None, false));
    assert!(found.is_empty());
}

#[test]
fn unknown_wire_content_types_are_tolerated() {
    let items = vec![item("workshop", "Regex Workshop", "", "L1")];
    let found = search_items(&items, &predicate(&["regex"], None, false));
    assert_eq!(found.len(), 1);
    assert_eq!(render_item(&found[0], true), "[workshop] Regex Workshop\nL1\n");
}
