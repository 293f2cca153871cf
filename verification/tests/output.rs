use kanban_stale_cards::board::StaleCard;
use kanban_stale_cards::json::parse;
use kanban_stale_cards::report::{
    eq_ignore_ascii_case, json_escape, keep_list, render_json, render_table, select_cards,
    sort_stalest_first,
};

fn card(name: &str, list: &str, stale: i64) -> StaleCard {
    StaleCard { card_name: name.to_string(), list_name: list.to_string(), entered_at: 100, stale_seconds: stale }
}

fn names(cards: &[StaleCard]) -> Vec<String> {
    cards.iter().map(|c| c.card_name.clone()).collect()
}

#[test]
fn escapes_json_text() {
    assert_eq!(json_escape("plain é"), "plain é");
    assert_eq!(json_escape("a\"b\\c\nd\re\tf"), "a\\\"b\\\\c\\nd\\re\\tf");
    assert_eq!(json_escape("\u{1}\u{1f}"), "\\u0001\\u001f");
    assert_eq!(json_escape(""), "");
}

#[test]
fn escaped_text_reads_back() {
    for s in ["", "plain", "q\"b\\s\n\r\t", "\u{0}\u{8}\u{1b}x", "😀 é"] {
        let quoted = format!("\"{}\"", json_escape(s));
        assert_eq!(parse(&quoted).unwrap().as_str(), Some(s));
    }
}

#[test]
fn sorts_stalest_first_and_keeps_ties_in_order() {
    let cards = vec![card("a", "L", 5), card("b", "L", 9), card("c", "L", 5), card("d", "L", -1), card("e", "L", 9)];
    assert_eq!(names(&sort_stalest_first(cards)), vec!["b", "e", "a", "c", "d"]);
}

#[test]
fn filters_by_list_ignoring_ascii_case() {
    assert!(eq_ignore_ascii_case("In Review", "in REVIEW"));
    assert!(!eq_ignore_ascii_case("In Review", "In Review "));
    assert!(!eq_ignore_ascii_case("É", "é"));
    let cards = vec![card("a", "To Do", 1), card("b", "in review", 2), card("c", "IN REVIEW", 3)];
    assert_eq!(names(&keep_list(cards, "In Review")), vec!["b", "c"]);
}

#[test]
fn selects_limits_after_sorting() {
    let cards = vec![card("a", "X", 1), card("b", "Y", 3), card("c", "X", 2), card("d", "X", 7)];
    assert_eq!(names(&select_cards(cards, Some("x"), Some(2))), vec!["d", "c"]);
    let cards = vec![card("a", "X", 1), card("b", "Y", 3)];
    assert_eq!(names(&select_cards(cards, None, Some(5))), vec!["b", "a"]);
    let cards = vec![card("a", "X", 1), card("b", "Y", 3)];
    assert_eq!(names(&select_cards(cards, None, Some(0))).len(), 0);
    let cards = vec![card("a", "X", 1), card("b", "Y", 3)];
    assert_eq!(names(&select_cards(cards, None, None)), vec!["b", "a"]);
}

#[test]
fn renders_the_table() {
    let cards = vec![
        card("Migrate billing to Stripe", "In Review", 1_234_000),
        card("Fix", "In Progress", 530_000),
        card("Docs", "To Do", 86_400),
    ];
    let expected = "\
CARD                       LIST         STALE
Migrate billing to Stripe  In Review    14d 6h
Fix                        In Progress  6d 3h
Docs                       To Do        1d 0h
";
    assert_eq!(render_table(&cards), expected);
    let short = vec![card("ab", "é", 60)];
    assert_eq!(render_table(&short), "CARD  LIST  STALE\nab    é     1m\n");
}

#[test]
fn renders_an_empty_table() {
    assert_eq!(render_table(&vec![]), "no open cards found in this export\n");
}

#[test]
fn renders_json() {
    let cards = vec![
        StaleCard { card_name: "Say \"hi\"".to_string(), list_name: "In Review".to_string(), entered_at: 1717000000, stale_seconds: 1234000 },
        StaleCard { card_name: "b".to_string(), list_name: "L".to_string(), entered_at: 5, stale_seconds: -7 },
    ];
    let expected = "[\n  {\"card\": \"Say \\\"hi\\\"\", \"list\": \"In Review\", \"entered_at_unix\": 1717000000, \"stale_seconds\": 1234000, \"stale_human\": \"14d 6h\"},\n  {\"card\": \"b\", \"list\": \"L\", \"entered_at_unix\": 5, \"stale_seconds\": -7, \"stale_human\": \"0m\"}\n]";
    assert_eq!(render_json(&cards), expected);
    assert_eq!(render_json(&vec![]), "[\n]");
    // the output reads back as JSON
    let back = parse(&render_json(&cards)).unwrap();
    let items = back.as_array().unwrap();
    assert_eq!(items[0].get("card").unwrap().as_str(), Some("Say \"hi\""));
    assert_eq!(items[1].get("stale_human").unwrap().as_str(), Some("0m"));
}
