use bd::types::{DependencyType, Issue, IssueType, SortPolicy, Status, WorkFilter, is_zero};
use bd::storage::Config;

fn issue() -> Issue {
    Issue {
        id: "bd-1".to_string(),
        content_hash: None,
        title: "A title".to_string(),
        description: String::new(),
        design: String::new(),
        acceptance_criteria: String::new(),
        notes: String::new(),
        status: Status::Open,
        priority: 2,
        issue_type: IssueType::Task,
        assignee: String::new(),
        estimated_minutes: None,
        created_at: 1_700_000_000_000_000,
        updated_at: 1_700_000_000_000_000,
        closed_at: None,
        external_ref: None,
        compaction_level: 0,
        compacted_at: None,
        compacted_at_commit: None,
        original_size: 0,
        source_repo: String::new(),
        labels: Vec::new(),
        dependencies: Vec::new(),
        comments: Vec::new(),
    }
}

#[test]
fn valid_issue_passes() {
    assert_eq!(issue().validate(), Ok(()));
}

#[test]
fn empty_title_is_refused() {
    let mut i = issue();
    i.title = String::new();
    assert_eq!(i.validate(), Err("title is required".to_string()));
}

#[test]
fn title_of_500_characters_passes() {
    let mut i = issue();
    i.title = "x".repeat(500);
    assert_eq!(i.validate(), Ok(()));
}

#[test]
fn title_of_501_characters_is_refused() {
    let mut i = issue();
    i.title = "x".repeat(501);
    assert_eq!(
        i.validate(),
        Err("title must be 500 characters or less (got 501)".to_string())
    );
}

#[test]
fn title_length_counts_characters_not_bytes() {
    let mut i = issue();
    i.title = "é".repeat(500);
    assert_eq!(i.title.len(), 1000);
    assert_eq!(i.validate(), Ok(()));
    i.title = "é".repeat(502);
    assert_eq!(
        i.validate(),
        Err("title must be 500 characters or less (got 502)".to_string())
    );
}

#[test]
fn priority_bounds() {
    for p in 0..=4 {
        let mut i = issue();
        i.priority = p;
        assert_eq!(i.validate(), Ok(()));
    }
    let mut i = issue();
    i.priority = 5;
    assert_eq!(i.validate(), Err("priority must be between 0 and 4 (got 5)".to_string()));
    i.priority = -1;
    assert_eq!(i.validate(), Err("priority must be between 0 and 4 (got -1)".to_string()));
    i.priority = i32::MIN;
    assert_eq!(
        i.validate(),
        Err("priority must be between 0 and 4 (got -2147483648)".to_string())
    );
}

#[test]
fn negative_estimate_is_refused() {
    let mut i = issue();
    i.estimated_minutes = Some(-1);
    assert_eq!(i.validate(), Err("estimated_minutes cannot be negative".to_string()));
    i.estimated_minutes = Some(0);
    assert_eq!(i.validate(), Ok(()));
}

#[test]
fn closed_issue_needs_closing_time() {
    let mut i = issue();
    i.status = Status::Closed;
    assert_eq!(
        i.validate(),
        Err("closed issues must have closed_at timestamp".to_string())
    );
    i.closed_at = Some(1_700_000_000_000_001);
    assert_eq!(i.validate(), Ok(()));
}

#[test]
fn open_issue_must_not_have_closing_time() {
    for status in [Status::Open, Status::InProgress, Status::Blocked] {
        let mut i = issue();
        i.status = status;
        i.closed_at = Some(1);
        assert_eq!(
            i.validate(),
            Err("non-closed issues cannot have closed_at timestamp".to_string())
        );
    }
}

#[test]
fn first_failed_check_is_reported() {
    let mut i = issue();
    i.title = String::new();
    i.priority = 9;
    i.estimated_minutes = Some(-5);
    assert_eq!(i.validate(), Err("title is required".to_string()));
    i.title = "ok".to_string();
    assert_eq!(i.validate(), Err("priority must be between 0 and 4 (got 9)".to_string()));
}

#[test]
fn names_of_the_variants() {
    assert_eq!(Status::Open.as_str(), "open");
    assert_eq!(Status::InProgress.as_str(), "in_progress");
    assert_eq!(Status::Blocked.as_str(), "blocked");
    assert_eq!(Status::Closed.as_str(), "closed");
    assert_eq!(IssueType::Bug.as_str(), "bug");
    assert_eq!(IssueType::Feature.as_str(), "feature");
    assert_eq!(IssueType::Task.as_str(), "task");
    assert_eq!(IssueType::Epic.as_str(), "epic");
    assert_eq!(IssueType::Chore.as_str(), "chore");
    assert_eq!(DependencyType::Blocks.as_str(), "blocks");
    assert_eq!(DependencyType::Related.as_str(), "related");
    assert_eq!(DependencyType::ParentChild.as_str(), "parent-child");
    assert_eq!(DependencyType::DiscoveredFrom.as_str(), "discovered-from");
}

#[test]
fn every_variant_is_valid() {
    assert!(Status::Blocked.is_valid());
    assert!(IssueType::Chore.is_valid());
    assert!(DependencyType::Related.is_valid());
    assert!(SortPolicy::Oldest.is_valid());
}

#[test]
fn edges_that_order_work() {
    assert!(DependencyType::Blocks.is_ordering());
    assert!(DependencyType::ParentChild.is_ordering());
    assert!(!DependencyType::Related.is_ordering());
    assert!(!DependencyType::DiscoveredFrom.is_ordering());
}

#[test]
fn defaults() {
    assert_eq!(SortPolicy::default(), SortPolicy::Hybrid);
    let f = WorkFilter::default();
    assert_eq!(f.status, Status::Open);
    assert_eq!(f.priority, None);
    assert_eq!(f.assignee, None);
    assert!(f.labels.is_empty());
    assert!(f.labels_any.is_empty());
    assert_eq!(f.limit, 0);
    assert_eq!(f.sort_policy, SortPolicy::Hybrid);
}

#[test]
fn zero_is_zero() {
    assert!(is_zero(&0));
    assert!(!is_zero(&1));
    assert!(!is_zero(&-1));
}

#[test]
fn sqlite_configuration() {
    let c = Config::sqlite("/tmp/x.db".to_string());
    assert_eq!(c.backend, "sqlite");
    assert_eq!(c.path, "/tmp/x.db");
}
