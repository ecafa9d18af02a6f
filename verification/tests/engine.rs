//! Tests of the topic tree and history engine: insertion, lookup,
//! tree identifiers, subtree listing, visibility, projection, search,
//! and payload classification.

use mqttui::items::Meta;
use mqttui::payload::{HistoryEntry, Payload};
use mqttui::tree::MqttHistory;

#[test]
fn tree_identifier_works() {
    let history = MqttHistory::example();
    assert_eq!(history.get_tree_identifier("whatever"), None);
    assert_eq!(history.get_tree_identifier("test").unwrap(), vec![1]);
    assert_eq!(history.get_tree_identifier("foo/bar").unwrap(), vec![0, 0]);
    assert_eq!(history.get_tree_identifier("foo/test").unwrap(), vec![0, 1]);
}

#[test]
fn topics_below_works() {
    let actual = MqttHistory::example().get_topics_below("foo");
    assert_eq!(actual, ["foo/bar", "foo/test"]);
}

#[test]
fn topics_below_finds_itself_works() {
    let actual = MqttHistory::example().get_topics_below("test");
    assert_eq!(actual, ["test"]);
}

#[test]
fn visible_all_closed_works() {
    let opened_topics: Vec<String> = Vec::new();
    let actual = MqttHistory::example().get_visible_topics(&opened_topics, &Some(Vec::new()));
    assert_eq!(actual, ["foo", "test"]);
}

#[test]
fn visible_opened_works() {
    let opened_topics = vec!["foo".to_string()];
    let actual = MqttHistory::example().get_visible_topics(&opened_topics, &Some(Vec::new()));
    assert_eq!(actual, ["foo", "foo/bar", "foo/test", "test"]);
}

#[test]
fn tree_items_works() {
    let example = MqttHistory::example();
    let (topics, items) = example.to_tree_items(&Some(Vec::new()));
    assert_eq!(topics, 3);
    assert_eq!(items.len(), 2);
    assert!(items[0].child(0).is_some());
    assert!(items[0].child(1).is_some());
    assert!(items[0].child(2).is_none());
    assert!(items[1].child(0).is_none());
}

fn entry(text: &str, ts: i64) -> HistoryEntry {
    HistoryEntry::new(text.as_bytes().to_vec(), ts)
}

#[test]
fn insertion_order_does_not_matter() {
    let orders: [[&str; 3]; 3] = [
        ["a/c", "a/b", "a/a"],
        ["a/a", "a/b", "a/c"],
        ["a/b", "a/c", "a/a"],
    ];
    for order in orders {
        let mut history = MqttHistory::new();
        let mut ts: i64 = 0;
        for topic in order {
            history.add(topic, entry("x", ts));
            ts += 1;
        }
        assert_eq!(history.get_tree_identifier("a/a").unwrap(), vec![0, 0]);
        assert_eq!(history.get_tree_identifier("a/b").unwrap(), vec![0, 1]);
        assert_eq!(history.get_tree_identifier("a/c").unwrap(), vec![0, 2]);
    }
}

#[test]
fn lookup_returns_every_inserted_topic() {
    let history = MqttHistory::example();
    assert_eq!(history.get("test").unwrap().len(), 2);
    assert_eq!(history.get("foo/test").unwrap().len(), 1);
    assert_eq!(history.get("foo/bar").unwrap().len(), 1);
    assert!(history.get("foo").is_none());
    assert!(history.get("missing").is_none());
}

#[test]
fn get_last_returns_the_newest_entry() {
    let history = MqttHistory::example();
    let last = history.get_last("test").unwrap();
    assert_eq!(last.timestamp_millis, 2);
    match &last.payload {
        Payload::Text(s) => assert_eq!(s, "C"),
        _ => panic!("latest payload of test should be plain text"),
    }
    assert!(history.get_last("missing").is_none());
    assert!(history.get_last("foo").is_none());
}

#[test]
fn topics_below_missing_is_empty() {
    let actual = MqttHistory::example().get_topics_below("missing");
    assert_eq!(actual, Vec::<String>::new());
}

#[test]
fn visible_without_query_is_unfiltered() {
    let opened_topics = vec!["foo".to_string()];
    let actual = MqttHistory::example().get_visible_topics(&opened_topics, &None);
    assert_eq!(actual, ["foo", "foo/bar", "foo/test", "test"]);
}

#[test]
fn visible_filtered_by_query() {
    let opened_topics = vec!["foo".to_string()];
    let query = Some(vec!["foo/bar".to_string()]);
    let actual = MqttHistory::example().get_visible_topics(&opened_topics, &query);
    // "foo" is kept because a query item contains it; "foo/bar" starts
    // with a query item; the others match nothing.
    assert_eq!(actual, ["foo", "foo/bar"]);
}

#[test]
fn search_finds_leaf_substring() {
    let history = MqttHistory::example();
    let found = history.search("es").unwrap();
    assert_eq!(found, ["test", "foo/test"]);
}

#[test]
fn search_across_segments_never_matches() {
    let history = MqttHistory::example();
    assert!(history.search("o/t").is_none());
    assert!(history.search("zzz").is_none());
}

#[test]
fn search_empty_tree_is_absent() {
    let history = MqttHistory::new();
    assert!(history.search("x").is_none());
}

#[test]
fn payload_classification_json() {
    let mut history = MqttHistory::new();
    history.add("sensor", entry("{\"a\": 1}", 7));
    let last = history.get_last("sensor").unwrap();
    assert!(last.payload.as_optional_json().is_some());
    match &last.payload {
        Payload::Json(v) => assert_eq!(v.dump(), "{\"a\":1}"),
        _ => panic!("a JSON document must be classified as JSON"),
    }
}

#[test]
fn payload_classification_text() {
    let mut history = MqttHistory::new();
    history.add("sensor", entry("hello world", 7));
    let last = history.get_last("sensor").unwrap();
    assert!(last.payload.as_optional_json().is_none());
    match &last.payload {
        Payload::Text(s) => assert_eq!(s, "hello world"),
        _ => panic!("plain text must be classified as text"),
    }
}

#[test]
fn payload_classification_not_utf8() {
    let mut history = MqttHistory::new();
    history.add("sensor", HistoryEntry::new(vec![0xff, 0xfe, 0x41], 7));
    let last = history.get_last("sensor").unwrap();
    assert!(matches!(last.payload, Payload::NotUtf8(_)));
}

#[test]
fn tree_items_meta_values() {
    let example = MqttHistory::example();
    let (_, items) = example.to_tree_items(&None);
    // items[0] is "foo": no direct history, two topics and two
    // messages below it.
    assert!(matches!(items[0].meta, Meta::Counts(2, 2)));
    assert_eq!(items[0].leaf, "foo");
    // items[1] is "test": latest payload "C".
    match &items[1].meta {
        Meta::Text(s) => assert_eq!(s, "C"),
        _ => panic!("test has direct history, its meta shows the payload"),
    }
    assert_eq!(items[1].leaf, "test");
    assert!(items[0].visible && items[1].visible);
}

#[test]
fn tree_items_query_drives_visibility() {
    let example = MqttHistory::example();
    let query = Some(vec!["test".to_string()]);
    let (_, items) = example.to_tree_items(&query);
    // "foo" is not related to the query item "test"; "test" is.
    assert!(!items[0].visible);
    assert!(items[1].visible);
    // children of "foo": "bar" is unrelated, "foo/test"... the query
    // item "test" does not contain "foo/test" and "foo/test" does not
    // start with "test", so it is hidden too.
    assert!(!items[0].children[0].visible);
    assert!(!items[0].children[1].visible);
}

#[test]
fn huge_fraction_is_kept_as_text() {
    // a decimal fraction of tens of thousands of digits would drive
    // the JSON parser's 16-bit exponent out of range; the classifier
    // keeps such payloads as plain text and the session survives
    let mut payload = "0.".to_string();
    payload.push_str(&"0".repeat(40000));
    let mut history = MqttHistory::new();
    history.add("sensor", HistoryEntry::new(payload.clone().into_bytes(), 1));
    let last = history.get_last("sensor").unwrap();
    match &last.payload {
        Payload::Text(s) => assert_eq!(s, &payload),
        _ => panic!("an overlong fraction must stay plain text"),
    }
}

#[test]
fn long_but_safe_fraction_is_json() {
    let mut payload = "0.".to_string();
    payload.push_str(&"0".repeat(1000));
    let mut history = MqttHistory::new();
    history.add("sensor", HistoryEntry::new(payload.into_bytes(), 1));
    let last = history.get_last("sensor").unwrap();
    assert!(last.payload.as_optional_json().is_some());
}

#[test]
fn example_holds_exactly_three_topics() {
    let history = MqttHistory::example();
    assert!(history.get("foo").is_none());
    assert!(history.get("").is_none());
    assert_eq!(history.get_topics_below("foo").len(), 2);
    let all = history.get_visible_topics(&Vec::new(), &None);
    assert_eq!(all, ["foo", "test"]);
}

#[test]
fn empty_segments_are_real_topics() {
    let mut history = MqttHistory::new();
    history.add("a//b", entry("x", 0));
    assert_eq!(history.get("a//b").unwrap().len(), 1);
    assert_eq!(history.get_topics_below("a"), ["a//b"]);
    assert_eq!(history.get_tree_identifier("a//b").unwrap(), vec![0, 0, 0]);
}
