use bd::types::{
    Dependency, DependencyType, Issue, IssueType, SortPolicy, StaleFilter, Status, WorkFilter,
};
use bd::work::{
    blocked_issues, epics_eligible_for_closure, filter_matches, ready_work, stale_issues,
};

const HOUR: i64 = 3_600_000_000;
const DAY: i64 = 24 * HOUR;
const NOW: i64 = 1_700_000_000_000_000;

fn issue(id: &str, status: Status) -> Issue {
    Issue {
        id: id.to_string(),
        content_hash: None,
        title: format!("Issue {}", id),
        description: String::new(),
        design: String::new(),
        acceptance_criteria: String::new(),
        notes: String::new(),
        status,
        priority: 2,
        issue_type: IssueType::Task,
        assignee: String::new(),
        estimated_minutes: None,
        created_at: NOW - HOUR,
        updated_at: NOW - HOUR,
        closed_at: if status == Status::Closed { Some(NOW) } else { None },
        external_ref: None,
        compaction_level: 0,
        compacted_at: None,
        compacted_at_commit: None,
        original_size: 0,
        source_repo: String::new(),
        labels: Vec::new(),
        dependencies: Vec::new(),
        comments: Vec::new(),
    }
}

fn with(mut i: Issue, priority: i32, created_at: i64) -> Issue {
    i.priority = priority;
    i.created_at = created_at;
    i
}

fn dep(from: &str, to: &str, dep_type: DependencyType) -> Dependency {
    Dependency {
        issue_id: from.to_string(),
        depends_on_id: to.to_string(),
        dep_type,
        created_at: NOW,
        created_by: "tester".to_string(),
    }
}

fn ids(list: &Vec<Issue>) -> Vec<String> {
    list.iter().map(|i| i.id.clone()).collect()
}

fn policy(sort_policy: SortPolicy) -> WorkFilter {
    WorkFilter { sort_policy, ..WorkFilter::default() }
}

#[test]
fn blocker_is_ready_and_blocked_is_not() {
    // A blocks B: B depends on A.
    let issues = vec![issue("A", Status::Open), issue("B", Status::Open)];
    let deps = vec![dep("B", "A", DependencyType::Blocks)];
    let ready = ready_work(&issues, &deps, &WorkFilter::default(), NOW);
    assert_eq!(ids(&ready), vec!["A"]);
}

#[test]
fn closing_the_blocker_makes_the_blocked_ready() {
    let issues = vec![issue("A", Status::Closed), issue("B", Status::Open)];
    let deps = vec![dep("B", "A", DependencyType::Blocks)];
    let ready = ready_work(&issues, &deps, &WorkFilter::default(), NOW);
    assert_eq!(ids(&ready), vec!["B"]);
}

#[test]
fn one_unresolved_blocker_among_resolved_ones_still_blocks() {
    let issues = vec![
        issue("A", Status::Closed),
        issue("B", Status::InProgress),
        issue("C", Status::Open),
    ];
    let deps = vec![dep("C", "A", DependencyType::Blocks), dep("C", "B", DependencyType::Blocks)];
    assert!(ready_work(&issues, &deps, &WorkFilter::default(), NOW).is_empty());
}

#[test]
fn only_blocks_edges_block() {
    let issues = vec![issue("A", Status::Open), issue("B", Status::Open)];
    let deps = vec![
        dep("B", "A", DependencyType::Related),
        dep("B", "A", DependencyType::ParentChild),
        dep("B", "A", DependencyType::DiscoveredFrom),
    ];
    let ready = ready_work(&issues, &deps, &policy(SortPolicy::Oldest), NOW);
    assert_eq!(ids(&ready), vec!["A", "B"]);
}

#[test]
fn dangling_blocker_does_not_block() {
    let issues = vec![issue("B", Status::Open)];
    let deps = vec![dep("B", "gone", DependencyType::Blocks)];
    assert_eq!(ids(&ready_work(&issues, &deps, &WorkFilter::default(), NOW)), vec!["B"]);
    assert!(blocked_issues(&issues, &deps).is_empty());
}

#[test]
fn only_open_issues_are_ready() {
    let issues = vec![
        issue("A", Status::InProgress),
        issue("B", Status::Blocked),
        issue("C", Status::Closed),
        issue("D", Status::Open),
    ];
    assert_eq!(ids(&ready_work(&issues, &vec![], &WorkFilter::default(), NOW)), vec!["D"]);
}

#[test]
fn ready_work_by_priority() {
    let issues = vec![
        with(issue("low", Status::Open), 3, NOW - 5 * HOUR),
        with(issue("urgent-late", Status::Open), 0, NOW - HOUR),
        with(issue("urgent-early", Status::Open), 0, NOW - 9 * DAY),
        with(issue("mid", Status::Open), 1, NOW - 2 * HOUR),
    ];
    let ready = ready_work(&issues, &vec![], &policy(SortPolicy::Priority), NOW);
    assert_eq!(ids(&ready), vec!["urgent-early", "urgent-late", "mid", "low"]);
}

#[test]
fn ready_work_by_age() {
    let issues = vec![
        with(issue("c", Status::Open), 0, NOW - HOUR),
        with(issue("a", Status::Open), 4, NOW - 9 * DAY),
        with(issue("b", Status::Open), 2, NOW - 3 * DAY),
    ];
    let ready = ready_work(&issues, &vec![], &policy(SortPolicy::Oldest), NOW);
    assert_eq!(ids(&ready), vec!["a", "b", "c"]);
}

#[test]
fn ready_work_hybrid_puts_recent_first_by_priority_then_old_by_age() {
    let issues = vec![
        with(issue("old-urgent", Status::Open), 0, NOW - 10 * DAY),
        with(issue("recent-low", Status::Open), 3, NOW - HOUR),
        with(issue("older-low", Status::Open), 4, NOW - 30 * DAY),
        with(issue("recent-urgent", Status::Open), 0, NOW - 47 * HOUR),
        with(issue("recent-mid", Status::Open), 1, NOW - 2 * HOUR),
    ];
    let ready = ready_work(&issues, &vec![], &WorkFilter::default(), NOW);
    assert_eq!(
        ids(&ready),
        vec!["recent-urgent", "recent-mid", "recent-low", "older-low", "old-urgent"]
    );
}

#[test]
fn recent_window_is_48_hours_inclusive() {
    let issues = vec![
        with(issue("just-outside", Status::Open), 0, NOW - 48 * HOUR - 1),
        with(issue("on-the-edge", Status::Open), 4, NOW - 48 * HOUR),
    ];
    let ready = ready_work(&issues, &vec![], &WorkFilter::default(), NOW);
    assert_eq!(ids(&ready), vec!["on-the-edge", "just-outside"]);
}

#[test]
fn equal_keys_keep_the_order_of_the_snapshot() {
    let issues = vec![
        with(issue("first", Status::Open), 1, NOW - HOUR),
        with(issue("second", Status::Open), 1, NOW - HOUR),
        with(issue("third", Status::Open), 1, NOW - HOUR),
    ];
    for p in [SortPolicy::Priority, SortPolicy::Oldest, SortPolicy::Hybrid] {
        assert_eq!(ids(&ready_work(&issues, &vec![], &policy(p), NOW)), vec!["first", "second", "third"]);
    }
}

#[test]
fn limit_cuts_the_list() {
    let issues = vec![
        with(issue("a", Status::Open), 2, NOW - HOUR),
        with(issue("b", Status::Open), 0, NOW - HOUR),
        with(issue("c", Status::Open), 1, NOW - HOUR),
    ];
    let mut f = policy(SortPolicy::Priority);
    f.limit = 2;
    assert_eq!(ids(&ready_work(&issues, &vec![], &f, NOW)), vec!["b", "c"]);
    f.limit = 3;
    assert_eq!(ids(&ready_work(&issues, &vec![], &f, NOW)), vec!["b", "c", "a"]);
    f.limit = 10;
    assert_eq!(ids(&ready_work(&issues, &vec![], &f, NOW)).len(), 3);
    f.limit = 0;
    assert_eq!(ids(&ready_work(&issues, &vec![], &f, NOW)).len(), 3);
    f.limit = -4;
    assert_eq!(ids(&ready_work(&issues, &vec![], &f, NOW)).len(), 3);
}

#[test]
fn filter_by_priority_and_assignee() {
    let mut a = with(issue("a", Status::Open), 1, NOW - HOUR);
    a.assignee = "alice".to_string();
    let mut b = with(issue("b", Status::Open), 1, NOW - HOUR);
    b.assignee = "bob".to_string();
    let c = with(issue("c", Status::Open), 2, NOW - HOUR);
    let issues = vec![a, b, c];
    let mut f = WorkFilter::default();
    f.priority = Some(1);
    assert_eq!(ids(&ready_work(&issues, &vec![], &f, NOW)), vec!["a", "b"]);
    f.assignee = Some("bob".to_string());
    assert_eq!(ids(&ready_work(&issues, &vec![], &f, NOW)), vec!["b"]);
    f.priority = Some(2);
    assert!(ready_work(&issues, &vec![], &f, NOW).is_empty());
}

#[test]
fn filter_by_labels() {
    let mut a = issue("a", Status::Open);
    a.labels = vec!["backend".to_string(), "urgent".to_string()];
    let mut b = issue("b", Status::Open);
    b.labels = vec!["backend".to_string()];
    let mut c = issue("c", Status::Open);
    c.labels = vec!["frontend".to_string()];
    let d = issue("d", Status::Open);
    let issues = vec![a.clone(), b, c, d];

    let mut all = WorkFilter::default();
    all.labels = vec!["backend".to_string(), "urgent".to_string()];
    assert_eq!(ids(&ready_work(&issues, &vec![], &all, NOW)), vec!["a"]);

    let mut any = WorkFilter::default();
    any.labels_any = vec!["urgent".to_string(), "frontend".to_string()];
    assert_eq!(ids(&ready_work(&issues, &vec![], &any, NOW)), vec!["a", "c"]);

    let mut both = WorkFilter::default();
    both.labels = vec!["backend".to_string()];
    both.labels_any = vec!["frontend".to_string(), "urgent".to_string()];
    assert_eq!(ids(&ready_work(&issues, &vec![], &both, NOW)), vec!["a"]);

    assert!(filter_matches(&a, &all));
    assert!(filter_matches(&a, &any));
    let mut none = WorkFilter::default();
    none.labels_any = vec!["nothing".to_string()];
    assert!(!filter_matches(&a, &none));
}

#[test]
fn first_issue_stands_for_a_repeated_id() {
    let mut second = issue("A", Status::Open);
    second.title = "the other".to_string();
    let issues = vec![issue("A", Status::Closed), second];
    assert!(ready_work(&issues, &vec![], &WorkFilter::default(), NOW).is_empty());
}

#[test]
fn blocked_issues_name_their_blockers() {
    let issues = vec![
        issue("A", Status::Open),
        issue("B", Status::Closed),
        issue("C", Status::InProgress),
        issue("D", Status::Closed),
    ];
    let deps = vec![
        dep("D", "C", DependencyType::Blocks),
        dep("A", "B", DependencyType::Blocks),
        dep("A", "C", DependencyType::Blocks),
        dep("A", "A", DependencyType::Related),
        dep("A", "gone", DependencyType::Blocks),
        dep("C", "A", DependencyType::Blocks),
    ];
    let blocked = blocked_issues(&issues, &deps);
    assert_eq!(blocked.len(), 3);
    assert_eq!(blocked[0].issue.id, "A");
    assert_eq!(blocked[0].blocked_by_count, 1);
    assert_eq!(blocked[0].blocked_by, vec!["C"]);
    assert_eq!(blocked[1].issue.id, "C");
    assert_eq!(blocked[1].blocked_by, vec!["A"]);
    // A closed issue with an unresolved blocker is listed all the same.
    assert_eq!(blocked[2].issue.id, "D");
    assert_eq!(blocked[2].blocked_by_count, 1);
    assert_eq!(blocked[2].blocked_by, vec!["C"]);
}

#[test]
fn blocked_issue_with_several_blockers() {
    let issues = vec![issue("A", Status::Open), issue("B", Status::Open), issue("C", Status::Blocked)];
    let deps = vec![dep("A", "C", DependencyType::Blocks), dep("A", "B", DependencyType::Blocks)];
    let blocked = blocked_issues(&issues, &deps);
    assert_eq!(blocked.len(), 1);
    assert_eq!(blocked[0].blocked_by_count, 2);
    assert_eq!(blocked[0].blocked_by, vec!["C", "B"]);
}

fn epic(id: &str) -> Issue {
    let mut e = issue(id, Status::Open);
    e.issue_type = IssueType::Epic;
    e
}

#[test]
fn epic_with_an_open_child_is_not_eligible() {
    let issues = vec![
        epic("E"),
        issue("c1", Status::Closed),
        issue("c2", Status::Closed),
        issue("c3", Status::Open),
    ];
    let deps = vec![
        dep("c1", "E", DependencyType::ParentChild),
        dep("c2", "E", DependencyType::ParentChild),
        dep("c3", "E", DependencyType::ParentChild),
    ];
    let epics = epics_eligible_for_closure(&issues, &deps);
    assert_eq!(epics.len(), 1);
    assert_eq!(epics[0].epic.id, "E");
    assert_eq!(epics[0].total_children, 3);
    assert_eq!(epics[0].closed_children, 2);
    assert!(!epics[0].eligible_for_close);
}

#[test]
fn epic_with_all_children_closed_is_eligible() {
    let issues = vec![
        epic("E"),
        issue("c1", Status::Closed),
        issue("c2", Status::Closed),
        issue("c3", Status::Closed),
    ];
    let deps = vec![
        dep("c1", "E", DependencyType::ParentChild),
        dep("c2", "E", DependencyType::ParentChild),
        dep("c3", "E", DependencyType::ParentChild),
    ];
    let epics = epics_eligible_for_closure(&issues, &deps);
    assert_eq!(epics.len(), 1);
    assert_eq!(epics[0].total_children, 3);
    assert_eq!(epics[0].closed_children, 3);
    assert!(epics[0].eligible_for_close);
}

#[test]
fn epic_without_children_is_not_eligible() {
    let issues = vec![epic("E"), issue("x", Status::Closed)];
    let deps = vec![
        dep("x", "E", DependencyType::Blocks),
        dep("E", "x", DependencyType::ParentChild),
        dep("gone", "E", DependencyType::ParentChild),
    ];
    let epics = epics_eligible_for_closure(&issues, &deps);
    assert_eq!(epics.len(), 1);
    assert_eq!(epics[0].total_children, 0);
    assert_eq!(epics[0].closed_children, 0);
    assert!(!epics[0].eligible_for_close);
}

#[test]
fn every_epic_is_reported_and_nothing_else() {
    let issues = vec![
        issue("t", Status::Open),
        epic("E1"),
        epic("E2"),
        issue("c", Status::Closed),
    ];
    let deps = vec![dep("c", "E2", DependencyType::ParentChild), dep("c", "t", DependencyType::ParentChild)];
    let epics = epics_eligible_for_closure(&issues, &deps);
    assert_eq!(epics.len(), 2);
    assert_eq!(epics[0].epic.id, "E1");
    assert!(!epics[0].eligible_for_close);
    assert_eq!(epics[1].epic.id, "E2");
    assert!(epics[1].eligible_for_close);
}

fn updated(mut i: Issue, updated_at: i64) -> Issue {
    i.updated_at = updated_at;
    i
}

#[test]
fn stale_issues_oldest_first() {
    let issues = vec![
        updated(issue("fresh", Status::Open), NOW - DAY),
        updated(issue("stale", Status::Open), NOW - 10 * DAY),
        updated(issue("staler", Status::InProgress), NOW - 40 * DAY),
        updated(issue("closed", Status::Closed), NOW - 90 * DAY),
        updated(issue("edge", Status::Blocked), NOW - 7 * DAY),
        updated(issue("just-over", Status::Blocked), NOW - 7 * DAY - 1),
    ];
    let filter = StaleFilter { days: 7, status: String::new(), limit: 0 };
    assert_eq!(ids(&stale_issues(&issues, &filter, NOW)), vec!["staler", "stale", "just-over"]);
}

#[test]
fn stale_issues_of_a_status() {
    let issues = vec![
        updated(issue("a", Status::Open), NOW - 10 * DAY),
        updated(issue("b", Status::Closed), NOW - 20 * DAY),
        updated(issue("c", Status::Closed), NOW - 30 * DAY),
        updated(issue("d", Status::InProgress), NOW - 30 * DAY),
    ];
    let closed = StaleFilter { days: 7, status: "closed".to_string(), limit: 0 };
    assert_eq!(ids(&stale_issues(&issues, &closed, NOW)), vec!["c", "b"]);
    let in_progress = StaleFilter { days: 7, status: "in_progress".to_string(), limit: 0 };
    assert_eq!(ids(&stale_issues(&issues, &in_progress, NOW)), vec!["d"]);
    let unknown = StaleFilter { days: 7, status: "nonsense".to_string(), limit: 0 };
    assert!(stale_issues(&issues, &unknown, NOW).is_empty());
}

#[test]
fn stale_issues_with_limit() {
    let issues = vec![
        updated(issue("a", Status::Open), NOW - 10 * DAY),
        updated(issue("b", Status::Open), NOW - 20 * DAY),
        updated(issue("c", Status::Open), NOW - 30 * DAY),
    ];
    let filter = StaleFilter { days: 1, status: String::new(), limit: 2 };
    assert_eq!(ids(&stale_issues(&issues, &filter, NOW)), vec!["c", "b"]);
}

#[test]
fn stale_with_extreme_values_does_not_overflow() {
    let issues = vec![
        updated(issue("a", Status::Open), i64::MIN),
        updated(issue("b", Status::Open), i64::MAX),
    ];
    let far = StaleFilter { days: i32::MAX, status: String::new(), limit: 0 };
    assert!(stale_issues(&issues, &far, i64::MIN).is_empty());
    let back = StaleFilter { days: i32::MIN, status: String::new(), limit: 0 };
    assert_eq!(ids(&stale_issues(&issues, &back, i64::MAX)), vec!["a", "b"]);
    let hybrid = ready_work(&issues, &vec![], &WorkFilter::default(), i64::MAX);
    assert_eq!(hybrid.len(), 2);
}
