use std::collections::HashSet;

use groundhog::date::Date;
use groundhog::ledger::{missing_issue_numbers, Entry, Ledger};

fn day(y: i32, m: u32, d: u32) -> Date {
    Date::from_ymd(y, m, d).unwrap()
}

fn missing(already_issued: Vec<u32>, current_issue: Option<u32>) -> Vec<u32> {
    let set: HashSet<u32> = already_issued.into_iter().collect();
    missing_issue_numbers(&set, current_issue)
}

#[test]
fn insert() {
    let mut ledger = Ledger::default();

    let entry = Entry {
        name: "path/to/project".to_string(),
        issue_number: 2,
        issue_id: "1234".to_string(),
        created: day(2024, 1, 1),
        due: Some(day(2024, 1, 1)),
    };

    ledger.insert(entry);

    assert!(ledger.numbers("wrong/project").is_empty());
    assert!(!ledger.numbers("path/to/project").is_empty());
}

#[test]
fn io() {
    let mut ledger = Ledger::default();

    ledger.insert(Entry {
        name: "path/to/project".to_string(),
        issue_number: 2,
        issue_id: "1234".to_string(),
        created: day(2024, 1, 1),
        due: Some(day(2024, 1, 1)),
    });

    ledger.insert(Entry {
        name: "other/project".to_string(),
        issue_number: 4,
        issue_id: "5678".to_string(),
        created: day(2024, 1, 1),
        due: Some(day(2024, 1, 1)),
    });

    let saved = ledger.to_entries();

    let loaded = Ledger::from_entries(saved);

    assert_eq!(ledger, loaded);
}

#[test]
fn missing_values() {
    assert_eq!(missing(vec![0, 1, 3, 5], Some(5)), vec![2, 4]);
}

#[test]
fn no_missing_value() {
    assert_eq!(missing(vec![0, 1, 2, 3], Some(3)), Vec::<u32>::default());
}

#[test]
fn missing_last() {
    assert_eq!(missing(vec![0, 1, 2, 3], Some(4)), vec![4]);
}

#[test]
fn missing_first() {
    assert_eq!(missing(vec![1, 2, 3], Some(3)), vec![0]);
}

#[test]
fn none_issued_yet() {
    assert_eq!(missing(vec![1, 2, 3], None), Vec::<u32>::default());
}

#[test]
fn nothing_recorded_gives_full_range() {
    assert_eq!(missing(vec![], Some(3)), vec![0, 1, 2, 3]);
    assert_eq!(missing(vec![], Some(0)), vec![0]);
}

#[test]
fn missing_issues_of_ledger() {
    let mut ledger = Ledger::new();
    for n in [0u32, 1, 3, 5] {
        ledger.insert(Entry {
            name: "weekly".to_string(),
            issue_number: n,
            issue_id: format!("id-{n}"),
            created: day(2024, 1, 1),
            due: None,
        });
    }
    assert_eq!(ledger.missing_issues("weekly", Some(5)), vec![2, 4]);
    assert_eq!(ledger.missing_issues("other", Some(2)), vec![0, 1, 2]);
    assert_eq!(ledger.missing_issues("weekly", None), Vec::<u32>::new());
}

#[test]
fn insert_same_key_overwrites() {
    let mut ledger = Ledger::new();
    let make = |id: &str| Entry {
        name: "weekly".to_string(),
        issue_number: 7,
        issue_id: id.to_string(),
        created: day(2024, 1, 1),
        due: None,
    };
    ledger.insert(make("first"));
    ledger.insert(make("second"));
    assert_eq!(ledger.to_entries(), vec![make("second")]);
    assert!(ledger.contains("weekly", 7));
    assert!(!ledger.contains("weekly", 6));
}

#[test]
fn loading_repeated_keys_keeps_the_last() {
    let make = |id: &str, n: u32| Entry {
        name: "weekly".to_string(),
        issue_number: n,
        issue_id: id.to_string(),
        created: day(2024, 1, 1),
        due: None,
    };
    let loaded = Ledger::from_entries(vec![make("a", 1), make("b", 2), make("c", 1)]);
    assert_eq!(loaded.to_entries(), vec![make("c", 1), make("b", 2)]);
}

#[test]
fn get_returns_recorded_data() {
    let mut ledger = Ledger::new();
    ledger.insert(Entry {
        name: "weekly".to_string(),
        issue_number: 3,
        issue_id: "gid://3".to_string(),
        created: day(2024, 2, 1),
        due: Some(day(2024, 2, 4)),
    });
    let data = ledger.get("weekly", 3).expect("recorded");
    assert_eq!(data.issue_id, "gid://3");
    assert_eq!(data.created, day(2024, 2, 1));
    assert_eq!(data.due, Some(day(2024, 2, 4)));
    assert!(ledger.get("weekly", 2).is_none());
    assert!(ledger.get("monthly", 3).is_none());
}
