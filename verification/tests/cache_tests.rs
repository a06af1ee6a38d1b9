use pybites_search::cache::{
    load_from_cache, resolve_cache_ttl, CacheMiss, DEFAULT_CACHE_DURATION,
};
use pybites_search::codec::{decode_snapshot, encode_snapshot_chars};
use pybites_search::fetcher::{plan_fetch, FetchPlan};
use pybites_search::item::Item;
use pybites_search::text::{chars_to_string, to_chars};

fn item(content_type: &str, title: &str, summary: &str, link: &str) -> Item {
    Item {
        content_type: content_type.to_string(),
        title: title.to_string(),
        summary: summary.to_string(),
        link: link.to_string(),
    }
}

fn sample_items() -> Vec<Item> {
    vec![
        item("article", "Intro to Regex", "basics", "L1"),
        item("bite", "Regex Bite", "practice", "L2"),
    ]
}

#[test]
fn encoded_snapshot_has_canonical_json_shape() {
    let items = vec![item("article", "T", "S", "L")];
    let text = encode_snapshot_chars(5, &items);
    assert_eq!(
        chars_to_string(&text),
        "{\"timestamp\":5,\"items\":[{\"content_type\":\"article\",\"title\":\"T\",\"summary\":\"S\",\"link\":\"L\"}]}"
    );
}

#[test]
fn encoded_snapshot_escapes_quotes_and_backslashes() {
    let items = vec![item("tip", "say \"hi\"", "a\\b", "L")];
    let text = encode_snapshot_chars(0, &items);
    let s = chars_to_string(&text);
    assert!(s.contains("\"title\":\"say \\\"hi\\\"\""));
    assert!(s.contains("\"summary\":\"a\\\\b\""));
    let decoded = decode_snapshot(&text).expect("own encoding must decode");
    assert_eq!(decoded.1, items);
}

#[test]
fn save_then_load_round_trip_preserves_items_and_order() {
    let items = sample_items();
    let text = encode_snapshot_chars(1000, &items);
    let loaded = load_from_cache(Some(&text), 1000, 0).expect("fresh snapshot must load");
    assert_eq!(loaded, items);
}

#[test]
fn empty_item_list_round_trips() {
    let items: Vec<Item> = Vec::new();
    let text = encode_snapshot_chars(7, &items);
    assert_eq!(chars_to_string(&text), "{\"timestamp\":7,\"items\":[]}");
    let decoded = decode_snapshot(&text).expect("empty snapshot must decode");
    assert_eq!(decoded.0, 7);
    assert!(decoded.1.is_empty());
}

#[test]
fn load_succeeds_at_exact_ttl_boundary() {
    let items = sample_items();
    let text = encode_snapshot_chars(1000, &items);
    // age == ttl: still fresh
    assert!(load_from_cache(Some(&text), 1600, 600).is_ok());
}

#[test]
fn load_misses_one_second_past_ttl() {
    let items = sample_items();
    let text = encode_snapshot_chars(1000, &items);
    assert_eq!(
        load_from_cache(Some(&text), 1601, 600).unwrap_err(),
        CacheMiss::Expired
    );
}

#[test]
fn load_with_future_timestamp_is_fresh() {
    let items = sample_items();
    let text = encode_snapshot_chars(2000, &items);
    assert!(load_from_cache(Some(&text), 1000, 0).is_ok());
}

#[test]
fn missing_cache_is_absent() {
    assert_eq!(
        load_from_cache(None, 1000, 600).unwrap_err(),
        CacheMiss::Absent
    );
}

#[test]
fn unreadable_cache_is_corrupt() {
    let text = to_chars("{\"timestamp\":oops}");
    assert_eq!(
        load_from_cache(Some(&text), 1000, 600).unwrap_err(),
        CacheMiss::Corrupt
    );
    let empty = to_chars("");
    assert_eq!(
        load_from_cache(Some(&empty), 1000, 600).unwrap_err(),
        CacheMiss::Corrupt
    );
}

// Known limitation, accepted by design: concurrent invocations share the
// cache file without locking, so two simultaneous runs may both plan a
// network fetch and the last writer wins.  These tests therefore exercise
// single-invocation behavior only and assert nothing about serializability
// across processes.
#[test]
fn fresh_cache_plans_no_network_call() {
    let items = sample_items();
    let text = encode_snapshot_chars(1000, &items);
    // A fresh snapshot must be served from cache: the network collaborator
    // is invoked only on a FetchNetwork plan, so this run makes zero calls.
    match plan_fetch(Some(&text), 1200, 600) {
        FetchPlan::UseCache(served) => assert_eq!(served, items),
        FetchPlan::FetchNetwork => panic!("fresh cache must not reach the network"),
    }
}

#[test]
fn stale_or_missing_cache_plans_a_network_call() {
    let items = sample_items();
    let text = encode_snapshot_chars(1000, &items);
    assert!(matches!(
        plan_fetch(Some(&text), 5000, 600),
        FetchPlan::FetchNetwork
    ));
    assert!(matches!(plan_fetch(None, 5000, 600), FetchPlan::FetchNetwork));
}

#[test]
fn ttl_setting_defaults_to_one_day() {
    assert_eq!(resolve_cache_ttl(None), DEFAULT_CACHE_DURATION);
    assert_eq!(DEFAULT_CACHE_DURATION, 86400);
}

#[test]
fn ttl_setting_parses_plain_and_signed_numbers() {
    let v = to_chars("3600");
    assert_eq!(resolve_cache_ttl(Some(&v)), 3600);
    let signed = to_chars("+42");
    assert_eq!(resolve_cache_ttl(Some(&signed)), 42);
    let zeros = to_chars("007");
    assert_eq!(resolve_cache_ttl(Some(&zeros)), 7);
}

#[test]
fn unreadable_ttl_setting_falls_back_to_default() {
    for bad in ["", "abc", "12h", "-5", "+", "99999999999999999999999"] {
        let v = to_chars(bad);
        assert_eq!(resolve_cache_ttl(Some(&v)), DEFAULT_CACHE_DURATION);
    }
}

#[test]
fn decoder_accepts_only_the_canonical_shape() {
    // Extra whitespace is not the canonical form this tool writes.
    let spaced = to_chars("{\"timestamp\": 5,\"items\":[]}");
    assert!(decode_snapshot(&spaced).is_none());
    // Trailing garbage is refused.
    let trailing = to_chars("{\"timestamp\":5,\"items\":[]}x");
    assert!(decode_snapshot(&trailing).is_none());
    // A leading zero is not how the encoder writes numbers.
    let zero = to_chars("{\"timestamp\":05,\"items\":[]}");
    assert!(decode_snapshot(&zero).is_none());
}
