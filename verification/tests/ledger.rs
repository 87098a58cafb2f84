use familiar::lists::any;
use familiar::memory::ledger::{Entry, Ledger, Use};
use familiar::time::Stamp;

fn at(text: &str) -> Stamp {
    let when = chrono::DateTime::parse_from_rfc3339(text).expect("date");
    Stamp { seconds: when.timestamp(), nanos: when.timestamp_subsec_nanos() }
}

fn now() -> Stamp {
    at("2026-08-02T09:00:00Z")
}

/// A date as the number of its day.
fn day(text: &str) -> i64 {
    let date: chrono::NaiveDate = text.parse().expect("date");
    at(&format!("{date}T00:00:00Z")).date()
}

#[test]
fn a_recall_credits_every_note_it_returned_once() {
    let mut ledger = Ledger::new();
    ledger.used(&vec!["a".to_string(), "b".to_string()], now());
    assert_eq!(ledger.uses("a"), 1);
    assert_eq!(ledger.uses("b"), 1);
    assert_eq!(ledger.uses("c"), 0);
    assert_eq!(ledger.last_used("a"), Some(day("2026-08-02")));
    assert!(ledger.is_dirty());
}

#[test]
fn keys_for_lines_that_are_gone_are_dropped() {
    let mut ledger = Ledger::new();
    ledger.used(&vec!["kept".to_string(), "gone".to_string()], now());
    let present = vec!["kept".to_string()];
    assert_eq!(ledger.retain(&present), 1);
    assert_eq!(ledger.uses("gone"), 0);
    assert_eq!(ledger.uses("kept"), 1);
}

#[test]
fn a_merge_carries_what_the_old_lines_had_earned() {
    // The dream rewrites three sentences into one. The evidence that
    // somebody wanted this is still true of the sentence that replaced
    // them, so throwing the counts away would make a merged memory look
    // brand new and unwanted.
    let mut ledger = Ledger::new();
    ledger.used(&vec!["one".to_string()], now());
    ledger.used(&vec!["one".to_string(), "two".to_string()], now());
    ledger.merge_into(&vec!["one".to_string(), "two".to_string()], "merged");

    assert_eq!(ledger.uses("merged"), 3);
    assert_eq!(ledger.uses("one"), 0);
    assert_eq!(
        ledger.last_used("merged"),
        Some(day("2026-08-02"))
    );
}

#[test]
fn merging_lines_nobody_ever_used_leaves_no_entry_behind() {
    let mut ledger = Ledger::new();
    ledger.merge_into(&vec!["one".to_string()], "merged");
    assert!(ledger.is_empty());
    assert!(!ledger.is_dirty());
}

#[test]
fn a_ledger_read_from_its_entries_is_level_with_them() {
    let entry = |key: &str, uses: u32| Entry {
        key: key.to_string(),
        used: Use { uses, last: Some(day("2026-08-01")) },
    };
    let mut ledger = Ledger::of(vec![entry("b", 2), entry("a", 1), entry("b", 5)]);
    assert!(!ledger.is_dirty(), "a loaded ledger is level with its file");
    assert_eq!(ledger.len(), 2);
    assert_eq!(ledger.uses("a"), 1);
    ledger.used(&vec!["a".to_string()], now());
    assert!(ledger.is_dirty());
    ledger.settled();
    assert!(!ledger.is_dirty());
    assert_eq!(ledger.entries().len(), 2);
    assert!(any(&vec!["a".to_string()], "a"));
    assert!(!any(&vec!["a".to_string()], "b"));
}

#[test]
fn a_merge_loses_nothing_that_was_earned() {
    let mut ledger = Ledger::new();
    ledger.used(&vec!["one".to_string(), "two".to_string(), "merged".to_string()], now());
    ledger.used(&vec!["two".to_string(), "other".to_string()], now());
    ledger.merge_into(&vec!["one".to_string(), "two".to_string()], "merged");
    assert_eq!(ledger.uses("merged"), 4);
    assert_eq!(ledger.uses("other"), 1);
    assert_eq!(ledger.len(), 2);
}
