use kanban_stale_cards::board::{find_stale_cards, StaleCard};
use kanban_stale_cards::json::{parse, Value};
use kanban_stale_cards::report::json_escape;
use kanban_stale_cards::text::str_eq;
use kanban_stale_cards::time::{days_from_civil, parse_iso8601_utc};

fn rows(doc: &str, now: u64) -> Result<Vec<(String, String, u64, i64)>, String> {
    let cards: Vec<StaleCard> = find_stale_cards(&parse(doc).unwrap(), now)?;
    Ok(cards
        .into_iter()
        .map(|c| (c.card_name, c.list_name, c.entered_at, c.stale_seconds))
        .collect())
}

const PLAIN: &str = r#"{
  "lists": [{"id": "L1", "name": "To Do"}, {"id": "L2", "name": "Done"}, {"id": "L3", "name": "Old", "closed": true}],
  "cards": [
    {"id": "a", "idList": "L1", "name": "First", "dateLastActivity": "2024-06-01T00:00:00Z"},
    {"id": "b", "idList": "L2", "name": "Second", "dateLastActivity": "2024-06-02T00:00:00Z"}
  ],
  "actions": [
    {"type": "updateCard", "date": "2024-05-20T00:00:00Z", "data": {"card": {"id": "a"}, "listAfter": {"id": "L1"}}}
  ]
}"#;

#[test]
fn a_closed_card_anywhere_changes_nothing() {
    let with_closed = r#"{
  "lists": [{"id": "L1", "name": "To Do"}, {"id": "L2", "name": "Done"}, {"id": "L3", "name": "Old", "closed": true}],
  "cards": [
    {"id": "a", "idList": "L1", "name": "First", "dateLastActivity": "2024-06-01T00:00:00Z"},
    {"id": "a", "idList": "L2", "name": "Closed twin", "closed": true, "dateLastActivity": "2024-06-05T00:00:00Z"},
    {"id": "b", "idList": "L2", "name": "Second", "dateLastActivity": "2024-06-02T00:00:00Z"}
  ],
  "actions": [
    {"type": "updateCard", "date": "2024-05-20T00:00:00Z", "data": {"card": {"id": "a"}, "listAfter": {"id": "L1"}}}
  ]
}"#;
    let now = 1_718_000_000;
    assert_eq!(rows(with_closed, now), rows(PLAIN, now));
    assert_eq!(rows(PLAIN, now).unwrap().len(), 2);
}

#[test]
fn a_card_of_an_archived_list_anywhere_changes_nothing() {
    let with_archived = r#"{
  "lists": [{"id": "L1", "name": "To Do"}, {"id": "L2", "name": "Done"}, {"id": "L3", "name": "Old", "closed": true}],
  "cards": [
    {"id": "z", "idList": "L3", "name": "Forgotten", "dateLastActivity": "2024-01-01T00:00:00Z"},
    {"id": "a", "idList": "L1", "name": "First", "dateLastActivity": "2024-06-01T00:00:00Z"},
    {"id": "b", "idList": "L2", "name": "Second", "dateLastActivity": "2024-06-02T00:00:00Z"}
  ],
  "actions": [
    {"type": "updateCard", "date": "2024-05-20T00:00:00Z", "data": {"card": {"id": "a"}, "listAfter": {"id": "L1"}}}
  ]
}"#;
    let now = 1_718_000_000;
    assert_eq!(rows(with_archived, now), rows(PLAIN, now));
}

#[test]
fn actions_that_are_no_move_into_the_current_list_change_nothing() {
    let with_others = r#"{
  "lists": [{"id": "L1", "name": "To Do"}, {"id": "L2", "name": "Done"}, {"id": "L3", "name": "Old", "closed": true}],
  "cards": [
    {"id": "a", "idList": "L1", "name": "First", "dateLastActivity": "2024-06-01T00:00:00Z"},
    {"id": "b", "idList": "L2", "name": "Second", "dateLastActivity": "2024-06-02T00:00:00Z"}
  ],
  "actions": [
    {"type": "commentCard", "date": "2024-05-30T00:00:00Z", "data": {"card": {"id": "b"}, "listAfter": {"id": "L2"}}},
    {"type": "updateCard", "date": "2024-05-20T00:00:00Z", "data": {"card": {"id": "a"}, "listAfter": {"id": "L1"}}},
    {"type": "updateCard", "date": "2024-05-31T00:00:00Z", "data": {"card": {"id": "a"}, "listAfter": {"id": "L2"}}},
    {"type": "updateCard", "date": "2024-05-31T00:00:00Z", "data": {"card": {"id": "nobody"}, "listAfter": {"id": "L1"}}},
    {"type": "updateCard", "date": "someday", "data": {"card": {"id": "b"}, "listAfter": {"id": "L2"}}}
  ]
}"#;
    let now = 1_718_000_000;
    assert_eq!(rows(with_others, now), rows(PLAIN, now));
}

#[test]
fn whitespace_around_a_document_changes_nothing() {
    let doc = r#"{"a": [1, true, null, "x\u00e9"], "b": {"c": -2.5e3}}"#;
    let padded = format!(" \n\t{}\r\n  ", doc);
    let v1 = parse(doc).unwrap();
    let v2 = parse(&padded).unwrap();
    assert_eq!(format!("{:?}", v1), format!("{:?}", v2));
    assert_eq!(parse("  7  ").unwrap().get("x").is_none(), true);
}

#[test]
fn escaping_goes_character_by_character() {
    let a = "say \"hi\"\n";
    let b = "tab\there \u{1} back\\slash";
    assert_eq!(json_escape(&(a.to_string() + b)), json_escape(a) + &json_escape(b));
    assert!(json_escape(b).chars().all(|c| (c as u32) >= 0x20));
    assert_eq!(json_escape(b), "tab\\there \\u0001 back\\\\slash");
    assert_eq!(json_escape("plain text, é ü"), "plain text, é ü");
}

#[test]
fn fraction_final_z_and_whitespace_leave_a_timestamp_unchanged() {
    let base = parse_iso8601_utc("2024-01-15T09:30:00");
    assert_eq!(base, Some(1705311000));
    assert_eq!(parse_iso8601_utc("2024-01-15T09:30:00Z"), base);
    assert_eq!(parse_iso8601_utc("2024-01-15T09:30:00.123"), base);
    assert_eq!(parse_iso8601_utc("2024-01-15T09:30:00.987Z"), base);
    assert_eq!(parse_iso8601_utc(" \t2024-01-15T09:30:00Z\n "), base);
}

#[test]
fn later_timestamps_have_larger_values() {
    let stamps = [
        "1970-01-01T00:00:00Z",
        "1999-12-31T23:59:59Z",
        "2000-01-01T00:00:00Z",
        "2024-02-28T23:59:59Z",
        "2024-02-29T00:00:00Z",
        "2024-03-01T00:00:00Z",
        "2024-03-01T00:00:01Z",
        "2024-03-01T00:01:00Z",
        "2024-03-01T01:00:00Z",
    ];
    for w in stamps.windows(2) {
        assert!(parse_iso8601_utc(w[0]).unwrap() < parse_iso8601_utc(w[1]).unwrap(), "{} < {}", w[0], w[1]);
    }
}

#[test]
fn day_counts_run_on_through_the_month() {
    assert_eq!(days_from_civil(1970, 1, 1), 0);
    assert_eq!(days_from_civil(2024, 3, 1) - days_from_civil(2024, 2, 29), 1);
    assert_eq!(days_from_civil(2023, 3, 1) - days_from_civil(2023, 2, 28), 1);
    assert_eq!(days_from_civil(2024, 2, 31), days_from_civil(2024, 3, 2));
    assert_eq!(days_from_civil(2024, 5, 17), days_from_civil(2024, 5, 1) + 16);
    assert_eq!(days_from_civil(1969, 12, 31), -1);
}

#[test]
fn equal_texts_compare_equal() {
    assert!(str_eq("héllo", "héllo"));
    assert!(!str_eq("héllo", "hello"));
    assert!(!str_eq("abc", "abcd"));
    assert!(str_eq("", ""));
}

#[test]
fn a_cloned_value_is_the_same_value() {
    let v = parse(r#"{"a": [1, {"b": "c"}, null], "d": true}"#).unwrap();
    let w = v.clone();
    assert_eq!(format!("{:?}", v), format!("{:?}", w));
    match w.get("a").and_then(|x| x.as_array()) {
        Some(items) => assert_eq!(items.len(), 3),
        None => panic!("expected an array"),
    }
}

#[test]
fn an_escaped_text_between_quotes_parses_back() {
    for t in ["", "plain", "say \"hi\"\n", "tab\tand \u{1} and \\ and é \u{1F600}"] {
        let doc = format!("\"{}\"", json_escape(t));
        match parse(&doc) {
            Ok(Value::String(back)) => assert_eq!(back, t),
            other => panic!("unexpected {:?}", other),
        }
    }
}
