use kanban_stale_cards::board::{find_stale_cards, StaleCard};
use kanban_stale_cards::json::parse;

fn report(doc: &str, now: u64) -> Result<Vec<StaleCard>, String> {
    find_stale_cards(&parse(doc).unwrap(), now)
}

const BOARD: &str = r#"{
  "lists": [
    {"id": "L1", "name": "To Do"},
    {"id": "L2", "name": "In Review"},
    {"id": "L3", "name": "Archived list", "closed": true},
    {"id": 5, "name": "bad id"}
  ],
  "cards": [
    {"id": "c1", "idList": "L2", "name": "Migrate billing", "dateLastActivity": "2024-06-01T00:00:00.000Z"},
    {"id": "c2", "idList": "L1", "name": "Write docs", "dateLastActivity": "2024-06-10T00:00:00.000Z"},
    {"id": "c3", "idList": "L1", "name": "Closed card", "closed": true, "dateLastActivity": "2024-06-01T00:00:00.000Z"},
    {"id": "c4", "idList": "L9", "dateLastActivity": "2024-06-05T00:00:00.000Z"},
    {"id": "c5", "idList": "L1", "name": "No dates"},
    {"idList": "L1", "name": "No id", "dateLastActivity": "2024-06-01T00:00:00.000Z"},
    {"id": "c6", "idList": "L3", "name": "In archived list", "dateLastActivity": "2024-06-01T00:00:00.000Z"}
  ],
  "actions": [
    {"type": "updateCard", "date": "2024-05-20T00:00:00.000Z", "data": {"card": {"id": "c1"}, "listAfter": {"id": "L2"}}},
    {"type": "updateCard", "date": "2024-05-25T00:00:00.000Z", "data": {"card": {"id": "c1"}, "listAfter": {"id": "L2"}}},
    {"type": "updateCard", "date": "2024-05-22T00:00:00.000Z", "data": {"card": {"id": "c1"}, "listAfter": {"id": "L2"}}},
    {"type": "updateCard", "date": "2024-05-30T00:00:00.000Z", "data": {"card": {"id": "c1"}, "listAfter": {"id": "L1"}}},
    {"type": "commentCard", "date": "2024-05-31T00:00:00.000Z", "data": {"card": {"id": "c1"}, "listAfter": {"id": "L2"}}},
    {"type": "updateCard", "date": "not a date", "data": {"card": {"id": "c2"}, "listAfter": {"id": "L1"}}}
  ]
}"#;

#[test]
fn reports_open_cards_with_their_entry_time() {
    let now = 1_718_000_000;
    let cards = report(BOARD, now).unwrap();
    assert_eq!(cards.len(), 3);
    // c1: latest move into its current list wins over dateLastActivity
    assert_eq!(cards[0].card_name, "Migrate billing");
    assert_eq!(cards[0].list_name, "In Review");
    assert_eq!(cards[0].entered_at, 1_716_595_200);
    assert_eq!(cards[0].stale_seconds, now as i64 - 1_716_595_200);
    // c2: falls back to dateLastActivity
    assert_eq!(cards[1].card_name, "Write docs");
    assert_eq!(cards[1].list_name, "To Do");
    assert_eq!(cards[1].entered_at, 1_717_977_600);
    // c4: unknown list, untitled
    assert_eq!(cards[2].card_name, "(untitled card)");
    assert_eq!(cards[2].list_name, "(unknown list)");
    assert_eq!(cards[2].entered_at, 1_717_545_600);
}

#[test]
fn staleness_can_be_negative() {
    let cards = report(BOARD, 0).unwrap();
    assert_eq!(cards[0].stale_seconds, -1_716_595_200);
}

#[test]
fn missing_arrays_are_errors() {
    assert_eq!(report("{}", 0).err().unwrap(), "export is missing a top-level \"lists\" array");
    assert_eq!(report("{\"cards\": []}", 0).err().unwrap(), "export is missing a top-level \"lists\" array");
    assert_eq!(report("{\"lists\": []}", 0).err().unwrap(), "export is missing a top-level \"cards\" array");
    assert_eq!(report("{\"lists\": {}, \"cards\": []}", 0).err().unwrap(), "export is missing a top-level \"lists\" array");
    assert_eq!(report("[]", 0).err().unwrap(), "export is missing a top-level \"lists\" array");
}

#[test]
fn empty_board_reports_nothing() {
    assert_eq!(report("{\"lists\": [], \"cards\": []}", 5).unwrap().len(), 0);
}

#[test]
fn repeated_card_id_reports_name_once() {
    let doc = r#"{"lists": [{"id": "L", "name": "A"}, {"id": "L", "name": "B"}],
      "cards": [
        {"id": "x", "idList": "L", "name": "first", "dateLastActivity": "1970-01-01T00:01:00Z"},
        {"id": "x", "idList": "L", "name": "second", "dateLastActivity": "bad"}
      ]}"#;
    let cards = report(doc, 120).unwrap();
    assert_eq!(cards.len(), 2);
    assert_eq!(cards[0].card_name, "second");
    assert_eq!(cards[1].card_name, "");
    assert_eq!(cards[0].list_name, "B");
    assert_eq!(cards[0].entered_at, 60);
    assert_eq!(cards[1].stale_seconds, 60);
}

#[test]
fn moves_into_other_lists_do_not_count() {
    let doc = r#"{"lists": [], "cards": [{"id": "x", "idList": "L2"}],
      "actions": [{"type": "updateCard", "date": "1970-01-01T00:01:00Z", "data": {"card": {"id": "x"}, "listAfter": {"id": "L1"}}}]}"#;
    assert_eq!(report(doc, 120).unwrap().len(), 0);
}

#[test]
fn staleness_wraps_like_the_release_build() {
    let doc = r#"{"lists": [], "cards": [{"id": "x", "idList": "L", "dateLastActivity": "1970-01-01T00:00:01Z"}]}"#;
    let cards = report(doc, u64::MAX).unwrap();
    assert_eq!(cards[0].stale_seconds, (u64::MAX as i64).wrapping_sub(1));
}

#[test]
fn the_clock_only_moves_staleness() {
    let early = report(BOARD, 1_718_000_000).unwrap();
    let late = report(BOARD, 1_718_086_400).unwrap();
    assert_eq!(early.len(), late.len());
    for (a, b) in early.iter().zip(late.iter()) {
        assert_eq!(a.card_name, b.card_name);
        assert_eq!(a.list_name, b.list_name);
        assert_eq!(a.entered_at, b.entered_at);
        assert_eq!(b.stale_seconds - a.stale_seconds, 86_400);
    }
}
