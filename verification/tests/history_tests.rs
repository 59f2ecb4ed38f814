use eva::history::{append_encoded, History, HistoryEntry};

fn entry(url: &str, at: i64) -> HistoryEntry {
    HistoryEntry { url: url.to_string(), visited_at: at }
}

fn urls(h: &History) -> Vec<String> {
    h.items.iter().map(|e| e.url.clone()).collect()
}

#[test]
fn append_keeps_recency_order() {
    let mut h = History::default();
    h.append_at("u1", 10);
    h.append_at("u2", 20);
    h.append_at("u3", 15);
    assert_eq!(urls(&h), vec!["u2".to_string(), "u3".to_string(), "u1".to_string()]);
}

#[test]
fn scenario_bounded_eviction() {
    // max = 2; append u1@t1, u2@t2, u3@t3 -> log = [(u3,t3),(u2,t2)], u1 evicted
    let mut h = History::default();
    h.append_at("u1", 1);
    h.truncate(2);
    h.append_at("u2", 2);
    h.truncate(2);
    h.append_at("u3", 3);
    h.truncate(2);
    assert_eq!(h.items.len(), 2);
    assert_eq!(h.items[0].url, "u3");
    assert_eq!(h.items[0].visited_at, 3);
    assert_eq!(h.items[1].url, "u2");
    assert_eq!(h.items[1].visited_at, 2);
}

#[test]
fn bounded_run_of_distinct_urls_keeps_most_recent() {
    // five appends, bound three: exactly the three most recent remain
    let mut h = History::default();
    for (i, u) in ["a", "b", "c", "d", "e"].iter().enumerate() {
        h.append_at(u, 100 + i as i64);
        h.truncate(3);
    }
    assert_eq!(urls(&h), vec!["e".to_string(), "d".to_string(), "c".to_string()]);
}

#[test]
fn scenario_revisit_updates_single_entry() {
    // append u1@t1 then u1@t2 (t2 > t1) -> single entry (u1, t2)
    let mut h = History::default();
    h.append_at("u1", 5);
    h.append_at("u1", 9);
    assert_eq!(h.items.len(), 1);
    assert_eq!(h.items[0].url, "u1");
    assert_eq!(h.items[0].visited_at, 9);
}

#[test]
fn revisit_moves_to_front_without_duplication() {
    let mut h = History::default();
    h.append_at("u1", 1);
    h.append_at("u2", 2);
    h.append_at("u3", 3);
    h.append_at("u1", 4);
    assert_eq!(urls(&h), vec!["u1".to_string(), "u3".to_string(), "u2".to_string()]);
    assert_eq!(h.items[0].visited_at, 4);
}

#[test]
fn remove_and_clear() {
    let mut h = History::default();
    h.append_at("u1", 1);
    h.append_at("u2", 2);
    h.remove("u1");
    assert_eq!(urls(&h), vec!["u2".to_string()]);
    h.clear();
    assert!(h.items.is_empty());
}

#[test]
fn append_uses_the_clock() {
    let mut h = History::default();
    h.append("gemini://now");
    assert_eq!(h.items.len(), 1);
    assert_eq!(h.items[0].url, "gemini://now");
    // a current Unix timestamp is far from zero
    assert!(h.items[0].visited_at > 1_000_000_000);
}

#[test]
fn roundtrip_history() {
    let mut h = History::default();
    h.append_at("gemini://a", 100);
    h.append_at("gemini://b", 200);
    let text = h.encode();
    let back = History::decode(&text).expect("decodes");
    assert_eq!(back.encode(), text);
    assert_eq!(urls(&back), urls(&h));
    assert_eq!(back.items[0].visited_at, 200);
}

#[test]
fn roundtrip_negative_timestamp() {
    let mut h = History::default();
    h.append_at("gemini://old", -12345);
    let text = h.encode();
    assert!(text.contains("visited = -12345"));
    let back = History::decode(&text).expect("decodes");
    assert_eq!(back.items[0].visited_at, -12345);
}

#[test]
fn roundtrip_extreme_timestamps() {
    let mut h = History::default();
    h.append_at("newest", i64::MAX);
    h.append_at("oldest", i64::MIN);
    let text = h.encode();
    let back = History::decode(&text).expect("decodes");
    assert_eq!(back.items[0].url, "newest");
    assert_eq!(back.items[0].visited_at, i64::MAX);
    assert_eq!(back.items[1].url, "oldest");
    assert_eq!(back.items[1].visited_at, i64::MIN);
}

#[test]
fn decode_rejects_malformed_or_inconsistent_logs() {
    assert!(History::decode("[[entry]]\n").is_err());
    assert!(History::decode("[[entry]]\nurl = \"a\"\nvisited = nonsense\n").is_err());
    // out of range for a 64-bit time
    assert!(
        History::decode("[[entry]]\nurl = \"a\"\nvisited = 99999999999999999999999999\n").is_err()
    );
    // ordered the wrong way round
    let unsorted = "[[entry]]\nurl = \"a\"\nvisited = 1\n[[entry]]\nurl = \"b\"\nvisited = 2\n";
    assert!(History::decode(unsorted).is_err());
    // duplicate url
    let dup = "[[entry]]\nurl = \"a\"\nvisited = 2\n[[entry]]\nurl = \"a\"\nvisited = 1\n";
    assert!(History::decode(dup).is_err());
}

#[test]
fn page_lists_entries_most_recent_first() {
    let mut h = History::default();
    h.append_at("gemini://a", 100);
    h.append_at("gemini://b", 200);
    assert_eq!(h.page(), "# History\n200\n=> gemini://b\n\n100\n=> gemini://a\n\n");
}

#[test]
fn locked_appends_lose_no_update() {
    // two sequential locked appends on the same backing text
    let first = append_encoded(None, "u1", 10, 5).expect("fresh file");
    let second = append_encoded(Some(&first), "u2", 20, 5).expect("merge");
    let log = History::decode(&second).expect("decodes");
    assert_eq!(urls(&log), vec!["u2".to_string(), "u1".to_string()]);
    assert_eq!(log.items[0].visited_at, 20);
    assert_eq!(log.items[1].visited_at, 10);
}

#[test]
fn locked_append_bounds_the_log() {
    let mut text = append_encoded(None, "u1", 1, 2).expect("fresh");
    text = append_encoded(Some(&text), "u2", 2, 2).expect("merge");
    text = append_encoded(Some(&text), "u3", 3, 2).expect("merge");
    let log = History::decode(&text).expect("decodes");
    assert_eq!(urls(&log), vec!["u3".to_string(), "u2".to_string()]);
}

#[test]
fn locked_append_rejects_corrupt_backing_text() {
    assert!(append_encoded(Some("not a history file"), "u", 1, 5).is_err());
}

#[test]
fn entries_survive_construction() {
    let h = History { items: vec![entry("x", 3), entry("y", 1)] };
    assert_eq!(h.items.len(), 2);
    assert_eq!(h.items[0].visited_at, 3);
}
