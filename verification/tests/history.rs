use purple::history::{ConnectionHistory, HistoryEntry};
use std::time::{SystemTime, UNIX_EPOCH};

#[test]
fn test_format_time_ago_zero() {
    assert_eq!(ConnectionHistory::format_time_ago(0), "");
}

#[test]
fn test_format_time_ago_recent() {
    let now = SystemTime::now().duration_since(UNIX_EPOCH).unwrap().as_secs();
    assert_eq!(ConnectionHistory::format_time_ago(now), "just now");
    assert_eq!(ConnectionHistory::format_time_ago(now - 300), "5m ago");
    assert_eq!(ConnectionHistory::format_time_ago(now - 7200), "2h ago");
    assert_eq!(ConnectionHistory::format_time_ago(now - 172800), "2d ago");
}

#[test]
fn time_ago_at_each_boundary() {
    let now = 10_000_000u64;
    assert_eq!(ConnectionHistory::format_time_ago_at(0, now), "");
    assert_eq!(ConnectionHistory::format_time_ago_at(now, now), "just now");
    assert_eq!(ConnectionHistory::format_time_ago_at(now - 59, now), "just now");
    assert_eq!(ConnectionHistory::format_time_ago_at(now - 60, now), "1m ago");
    assert_eq!(ConnectionHistory::format_time_ago_at(now - 3599, now), "59m ago");
    assert_eq!(ConnectionHistory::format_time_ago_at(now - 3600, now), "1h ago");
    assert_eq!(ConnectionHistory::format_time_ago_at(now - 86399, now), "23h ago");
    assert_eq!(ConnectionHistory::format_time_ago_at(now - 86400, now), "1d ago");
    assert_eq!(ConnectionHistory::format_time_ago_at(now - 604799, now), "6d ago");
    assert_eq!(ConnectionHistory::format_time_ago_at(now - 604800, now), "1w ago");
    assert_eq!(ConnectionHistory::format_time_ago_at(now - 6048000, now), "10w ago");
    assert_eq!(ConnectionHistory::format_time_ago_at(now + 500, now), "just now");
}

#[test]
fn record_counts_and_stamps() {
    let mut history = ConnectionHistory::new(String::from("/tmp/history.tsv"));
    assert_eq!(history.last_connected("web"), 0);
    history.record_at("web", 100);
    history.record_at("db", 150);
    history.record_at("web", 200);
    assert_eq!(history.entries.len(), 2);
    assert_eq!(history.entries[0].alias, "web");
    assert_eq!(history.entries[0].count, 2);
    assert_eq!(history.last_connected("web"), 200);
    assert_eq!(history.last_connected("db"), 150);
    assert_eq!(history.last_connected("none"), 0);
    assert_eq!(history.path, "/tmp/history.tsv");
}

#[test]
fn record_uses_the_clock() {
    let before = SystemTime::now().duration_since(UNIX_EPOCH).unwrap().as_secs();
    let mut history = ConnectionHistory::default();
    history.record("web");
    let after = SystemTime::now().duration_since(UNIX_EPOCH).unwrap().as_secs();
    let stamp = history.last_connected("web");
    assert!(before <= stamp && stamp <= after);
    assert_eq!(history.entries[0].count, 1);
}

#[test]
fn history_lines_round_trip() {
    let entry = HistoryEntry { alias: "web".to_string(), last_connected: 1700000000, count: 7 };
    let line = ConnectionHistory::format_line(&entry);
    assert_eq!(line, "web\t1700000000\t7");
    let back = ConnectionHistory::parse_line(&line).unwrap();
    assert_eq!(back.alias, "web");
    assert_eq!(back.last_connected, 1700000000);
    assert_eq!(back.count, 7);
}

#[test]
fn history_lines_that_give_nothing() {
    assert!(ConnectionHistory::parse_line("").is_none());
    assert!(ConnectionHistory::parse_line("web").is_none());
    assert!(ConnectionHistory::parse_line("web\t12").is_none());
    assert!(ConnectionHistory::parse_line("web\tx\t1").is_none());
    assert!(ConnectionHistory::parse_line("web\t1\tx").is_none());
    assert!(ConnectionHistory::parse_line("web\t1\t2\t3").is_none());
    assert!(ConnectionHistory::parse_line("web\t1\t4294967296").is_none());
    assert!(ConnectionHistory::parse_line("web\t18446744073709551616\t1").is_none());
    let top = ConnectionHistory::parse_line("\t18446744073709551615\t4294967295").unwrap();
    assert_eq!(top.alias, "");
    assert_eq!(top.last_connected, u64::MAX);
    assert_eq!(top.count, u32::MAX);
}

#[test]
fn insert_replaces_the_entry_of_the_alias() {
    let mut history = ConnectionHistory::default();
    history.insert(HistoryEntry { alias: "a".to_string(), last_connected: 1, count: 1 });
    history.insert(HistoryEntry { alias: "b".to_string(), last_connected: 2, count: 2 });
    history.insert(HistoryEntry { alias: "a".to_string(), last_connected: 3, count: 9 });
    assert_eq!(history.entries.len(), 2);
    assert_eq!(history.entries[0].last_connected, 3);
    assert_eq!(history.entries[0].count, 9);
}
