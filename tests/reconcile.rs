use groundhog::date::Date;
use groundhog::dispatch::{record_for, record_results};
use groundhog::graphql::{CreateIssue, CreateIssueResponse, Error};
use groundhog::ledger::{Entry, Ledger};
use groundhog::reconcile::{issues_to_create, WorkItem};
use groundhog::schedule::{Duration, Issue};

fn day(y: i32, m: u32, d: u32) -> Date {
    Date::from_ymd(y, m, d).unwrap()
}

fn schedule(project: &str) -> Issue {
    Issue::new(
        project.to_string(),
        day(2023, 11, 5),
        None,
        Duration { seconds: 7 * 86400 },
        Duration { seconds: 86400 },
        String::from("weekly.md"),
        vec!["chore".to_string()],
        String::from("{\"team\":\"ops\"}"),
    )
    .unwrap()
}

fn numbers(items: &[WorkItem], title: &str) -> Vec<u32> {
    items
        .iter()
        .filter(|w| w.title == title)
        .map(|w| w.issue_number)
        .collect()
}

fn entry(name: &str, n: u32) -> Entry {
    Entry {
        name: name.to_string(),
        issue_number: n,
        issue_id: format!("gid://{n}"),
        created: day(2023, 12, 1),
        due: None,
    }
}

#[test]
fn work_list_covers_missing_occurrences_in_order() {
    let issues = vec![
        ("alpha".to_string(), schedule("group/alpha")),
        ("beta".to_string(), schedule("group/beta")),
    ];
    let mut ledger = Ledger::new();
    ledger.insert(entry("alpha", 0));
    ledger.insert(entry("alpha", 2));
    // 2023-11-25: 20 days plus one day of notice, three weeks: occurrence 3
    let items = issues_to_create(day(2023, 11, 25), &ledger, &issues);
    let ids: Vec<(String, u32)> = items
        .iter()
        .map(|w| (w.title.clone(), w.issue_number))
        .collect();
    assert_eq!(
        ids,
        vec![
            ("alpha".to_string(), 1),
            ("alpha".to_string(), 3),
            ("beta".to_string(), 0),
            ("beta".to_string(), 1),
            ("beta".to_string(), 2),
            ("beta".to_string(), 3),
        ]
    );
    let first = &items[0];
    assert_eq!(first.project_path, "group/alpha");
    assert_eq!(first.template, "weekly.md");
    assert_eq!(first.template_args, "{\"team\":\"ops\"}");
    assert_eq!(first.labels, vec!["chore".to_string()]);
    assert_eq!(first.due, Some(day(2023, 11, 12)));
    assert_eq!(items[1].due, Some(day(2023, 11, 26)));
}

#[test]
fn empty_work_list_before_start() {
    let issues = vec![("alpha".to_string(), schedule("group/alpha"))];
    let items = issues_to_create(day(2023, 1, 1), &Ledger::new(), &issues);
    assert!(items.is_empty());
}

#[test]
fn reconciliation_is_idempotent_without_dispatch() {
    let issues = vec![("alpha".to_string(), schedule("group/alpha"))];
    let mut ledger = Ledger::new();
    ledger.insert(entry("alpha", 1));
    let first = issues_to_create(day(2023, 11, 20), &ledger, &issues);
    record_results(&mut ledger, &vec![Err(Error::Gitlab), Err(Error::Request("timeout".to_string()))]);
    let second = issues_to_create(day(2023, 11, 20), &ledger, &issues);
    assert_eq!(numbers(&first, "alpha"), vec![0, 2]);
    assert_eq!(numbers(&first, "alpha"), numbers(&second, "alpha"));
}

#[test]
fn created_occurrence_is_never_listed_again() {
    let issues = vec![("alpha".to_string(), schedule("group/alpha"))];
    let mut ledger = Ledger::new();
    let items = issues_to_create(day(2023, 11, 5), &ledger, &issues);
    assert_eq!(numbers(&items, "alpha"), vec![0]);
    let result = record_for(&items[0], Ok("gid://gitlab/Issue/1".to_string()), day(2023, 11, 5));
    record_results(&mut ledger, &vec![result]);
    for later in [day(2023, 11, 5), day(2023, 12, 1), day(2025, 1, 1)] {
        let again = issues_to_create(later, &ledger, &issues);
        assert!(!numbers(&again, "alpha").contains(&0));
    }
}

#[test]
fn partial_failure_is_retried_next_run() {
    let issues = vec![("alpha".to_string(), schedule("group/alpha"))];
    let mut ledger = Ledger::new();
    ledger.insert(entry("alpha", 0));
    ledger.insert(entry("alpha", 1));
    let today = day(2023, 12, 2);
    let items = issues_to_create(today, &ledger, &issues);
    assert_eq!(numbers(&items, "alpha"), vec![2, 3, 4]);
    let results = vec![
        record_for(&items[0], Ok("id-2".to_string()), today),
        record_for(&items[1], Err(Error::Gitlab), today),
        record_for(&items[2], Ok("id-4".to_string()), today),
    ];
    record_results(&mut ledger, &results);
    assert!(ledger.contains("alpha", 2));
    assert!(!ledger.contains("alpha", 3));
    assert!(ledger.contains("alpha", 4));
    let later = day(2023, 12, 9);
    let next = issues_to_create(later, &ledger, &issues);
    assert_eq!(numbers(&next, "alpha"), vec![3, 5]);
    let due = issues[0].1.most_recent_issue(later);
    assert_eq!(due, Some(5));
    assert_eq!(numbers(&next, "alpha"), ledger.missing_issues("alpha", due));
}

#[test]
fn record_for_builds_entry() {
    let issues = vec![("alpha".to_string(), schedule("group/alpha"))];
    let items = issues_to_create(day(2023, 11, 5), &Ledger::new(), &issues);
    let r = record_for(&items[0], Ok("gid://gitlab/Issue/9".to_string()), day(2023, 11, 6));
    assert_eq!(
        r,
        Ok(Entry {
            name: "alpha".to_string(),
            issue_number: 0,
            issue_id: "gid://gitlab/Issue/9".to_string(),
            created: day(2023, 11, 6),
            due: Some(day(2023, 11, 5)),
        })
    );
    let e = record_for(&items[0], Err(Error::Gitlab), day(2023, 11, 6));
    assert_eq!(e, Err(Error::Gitlab));
}

#[test]
fn response_with_errors_is_rejected() {
    let r = CreateIssue::issue_id(CreateIssueResponse {
        has_errors: true,
        issue_id: Some("gid://1".to_string()),
    });
    assert_eq!(r, Err(Error::Gitlab));
    let r = CreateIssue::issue_id(CreateIssueResponse { has_errors: false, issue_id: None });
    assert_eq!(r, Err(Error::Gitlab));
    let r = CreateIssue::issue_id(CreateIssueResponse {
        has_errors: false,
        issue_id: Some("gid://1".to_string()),
    });
    assert_eq!(r, Ok("gid://1".to_string()));
}

#[test]
fn payload_carries_work_item() {
    let issues = vec![("alpha".to_string(), schedule("group/alpha"))];
    let mut items = issues_to_create(day(2023, 11, 5), &Ledger::new(), &issues);
    let payload = items.remove(0).into_payload(Some("body".to_string()));
    assert_eq!(payload.project_path, "group/alpha");
    assert_eq!(payload.title, "alpha");
    assert_eq!(payload.description, Some("body".to_string()));
    assert_eq!(payload.due, Some(day(2023, 11, 5)));
    assert_eq!(payload.labels, vec!["chore".to_string()]);
}
