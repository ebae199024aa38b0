use bd::memory::{issue_type_of, priority_of, status_of, MemoryStorage};
use bd::search::issue_matches;
use bd::types::{Issue, IssueFilter, IssueType, Status};

const NOW: i64 = 1_700_000_000_000_000;

fn issue(id: &str) -> Issue {
    Issue {
        id: id.to_string(),
        content_hash: None,
        title: format!("Issue {}", id),
        description: String::new(),
        design: String::new(),
        acceptance_criteria: String::new(),
        notes: String::new(),
        status: Status::Open,
        priority: 2,
        issue_type: IssueType::Task,
        assignee: String::new(),
        estimated_minutes: None,
        created_at: NOW,
        updated_at: NOW,
        closed_at: None,
        external_ref: None,
        compaction_level: 0,
        compacted_at: None,
        compacted_at_commit: None,
        original_size: 0,
        source_repo: String::new(),
        labels: Vec::new(),
        dependencies: Vec::new(),
        comments: Vec::new(),
    }
}

fn ids(list: &Vec<Issue>) -> Vec<String> {
    list.iter().map(|i| i.id.clone()).collect()
}

fn catalogue() -> MemoryStorage {
    let mut s = MemoryStorage::new();
    let mut a = issue("bd-1");
    a.title = "Fix the login page".to_string();
    a.description = "Users cannot log in".to_string();
    a.issue_type = IssueType::Bug;
    a.priority = 0;
    a.assignee = "alice".to_string();
    a.created_at = NOW - 100;
    let mut b = issue("bd-2");
    b.title = "Write the manual".to_string();
    b.notes = "ask alice about the login chapter".to_string();
    b.priority = 3;
    b.created_at = NOW - 50;
    b.updated_at = NOW + 50;
    let mut c = issue("bd-3");
    c.title = "Ünïcode in titles".to_string();
    c.description = "the naïve café".to_string();
    c.status = Status::Closed;
    c.closed_at = Some(NOW + 10);
    c.priority = 4;
    for i in [a, b, c] {
        s.create_issue_at(&i, "tester", NOW).unwrap();
    }
    s.add_label_at("bd-1", "web", "tester", NOW).unwrap();
    s.add_label_at("bd-1", "urgent", "tester", NOW).unwrap();
    s.add_label_at("bd-2", "docs", "tester", NOW).unwrap();
    s
}

#[test]
fn empty_search_finds_everything() {
    let s = catalogue();
    assert_eq!(ids(&s.search_issues("", &IssueFilter::default())), vec!["bd-1", "bd-2", "bd-3"]);
}

#[test]
fn query_looks_in_id_title_and_description() {
    let s = catalogue();
    let f = IssueFilter::default();
    assert_eq!(ids(&s.search_issues("login", &f)), vec!["bd-1"]);
    assert_eq!(ids(&s.search_issues("bd-2", &f)), vec!["bd-2"]);
    assert_eq!(ids(&s.search_issues("cannot", &f)), vec!["bd-1"]);
    assert_eq!(ids(&s.search_issues("the", &f)), vec!["bd-1", "bd-2", "bd-3"]);
    assert_eq!(ids(&s.search_issues("café", &f)), vec!["bd-3"]);
    assert_eq!(ids(&s.search_issues("ï", &f)), vec!["bd-3"]);
    assert!(s.search_issues("Login", &f).is_empty());
    assert!(s.search_issues("alice", &f).is_empty());
}

#[test]
fn filter_by_fields() {
    let s = catalogue();
    let mut f = IssueFilter::default();
    f.status = Some(Status::Closed);
    assert_eq!(ids(&s.search_issues("", &f)), vec!["bd-3"]);
    let mut f = IssueFilter::default();
    f.issue_type = Some(IssueType::Bug);
    assert_eq!(ids(&s.search_issues("", &f)), vec!["bd-1"]);
    let mut f = IssueFilter::default();
    f.priority = Some(3);
    assert_eq!(ids(&s.search_issues("", &f)), vec!["bd-2"]);
    let mut f = IssueFilter::default();
    f.priority_min = Some(3);
    assert_eq!(ids(&s.search_issues("", &f)), vec!["bd-2", "bd-3"]);
    f.priority_max = Some(3);
    assert_eq!(ids(&s.search_issues("", &f)), vec!["bd-2"]);
    let mut f = IssueFilter::default();
    f.assignee = Some("alice".to_string());
    assert_eq!(ids(&s.search_issues("", &f)), vec!["bd-1"]);
    let mut f = IssueFilter::default();
    f.no_assignee = true;
    assert_eq!(ids(&s.search_issues("", &f)), vec!["bd-2", "bd-3"]);
    let mut f = IssueFilter::default();
    f.empty_description = true;
    assert_eq!(ids(&s.search_issues("", &f)), vec!["bd-2"]);
    let mut f = IssueFilter::default();
    f.no_labels = true;
    assert_eq!(ids(&s.search_issues("", &f)), vec!["bd-3"]);
    let mut f = IssueFilter::default();
    f.ids = vec!["bd-3".to_string(), "bd-1".to_string(), "bd-9".to_string()];
    assert_eq!(ids(&s.search_issues("", &f)), vec!["bd-1", "bd-3"]);
}

#[test]
fn filter_by_labels_texts_and_times() {
    let s = catalogue();
    let mut f = IssueFilter::default();
    f.labels = vec!["web".to_string(), "urgent".to_string()];
    assert_eq!(ids(&s.search_issues("", &f)), vec!["bd-1"]);
    f.labels.push("docs".to_string());
    assert!(s.search_issues("", &f).is_empty());
    let mut f = IssueFilter::default();
    f.labels_any = vec!["docs".to_string(), "urgent".to_string()];
    assert_eq!(ids(&s.search_issues("", &f)), vec!["bd-1", "bd-2"]);

    let mut f = IssueFilter::default();
    f.title_search = "manual".to_string();
    assert_eq!(ids(&s.search_issues("", &f)), vec!["bd-2"]);
    let mut f = IssueFilter::default();
    f.title_contains = "the".to_string();
    f.notes_contains = "alice".to_string();
    assert_eq!(ids(&s.search_issues("", &f)), vec!["bd-2"]);
    let mut f = IssueFilter::default();
    f.description_contains = "naïve".to_string();
    assert_eq!(ids(&s.search_issues("", &f)), vec!["bd-3"]);

    let mut f = IssueFilter::default();
    f.created_after = Some(NOW - 100);
    assert_eq!(ids(&s.search_issues("", &f)), vec!["bd-2", "bd-3"]);
    f.created_before = Some(NOW);
    assert_eq!(ids(&s.search_issues("", &f)), vec!["bd-2"]);
    let mut f = IssueFilter::default();
    f.updated_after = Some(NOW);
    assert_eq!(ids(&s.search_issues("", &f)), vec!["bd-2"]);
    let mut f = IssueFilter::default();
    f.updated_before = Some(NOW + 1);
    assert_eq!(ids(&s.search_issues("", &f)), vec!["bd-1", "bd-3"]);
    let mut f = IssueFilter::default();
    f.closed_after = Some(NOW);
    assert_eq!(ids(&s.search_issues("", &f)), vec!["bd-3"]);
    f.closed_after = Some(NOW + 10);
    assert!(s.search_issues("", &f).is_empty());
    let mut f = IssueFilter::default();
    f.closed_before = Some(NOW + 11);
    assert_eq!(ids(&s.search_issues("", &f)), vec!["bd-3"]);
}

#[test]
fn search_with_limit() {
    let s = catalogue();
    let mut f = IssueFilter::default();
    f.limit = 2;
    assert_eq!(ids(&s.search_issues("", &f)), vec!["bd-1", "bd-2"]);
    f.limit = 5;
    assert_eq!(s.search_issues("", &f).len(), 3);
    f.limit = -1;
    assert_eq!(s.search_issues("", &f).len(), 3);
}

#[test]
fn one_issue_against_a_filter() {
    let mut i = issue("x");
    i.title = "abcabc".to_string();
    let f = IssueFilter::default();
    assert!(issue_matches(&i, &f, "cab"));
    assert!(issue_matches(&i, &f, "abcabc"));
    assert!(!issue_matches(&i, &f, "abcabca"));
    assert!(!issue_matches(&i, &f, "ba"));
}

#[test]
fn names_are_parsed() {
    assert_eq!(status_of("open"), Some(Status::Open));
    assert_eq!(status_of("in_progress"), Some(Status::InProgress));
    assert_eq!(status_of("blocked"), Some(Status::Blocked));
    assert_eq!(status_of("closed"), Some(Status::Closed));
    assert_eq!(status_of("Open"), None);
    assert_eq!(status_of(""), None);
    assert_eq!(issue_type_of("bug"), Some(IssueType::Bug));
    assert_eq!(issue_type_of("feature"), Some(IssueType::Feature));
    assert_eq!(issue_type_of("task"), Some(IssueType::Task));
    assert_eq!(issue_type_of("epic"), Some(IssueType::Epic));
    assert_eq!(issue_type_of("chore"), Some(IssueType::Chore));
    assert_eq!(issue_type_of("story"), None);
    for p in 0..=4 {
        assert_eq!(priority_of(&p.to_string()), Some(p));
    }
    assert_eq!(priority_of("5"), None);
    assert_eq!(priority_of("-1"), None);
    assert_eq!(priority_of("02"), None);
}
