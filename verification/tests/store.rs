use bd::memory::MemoryStorage;
use bd::storage::StoreError;
use bd::textmap::TextMap;
use bd::types::{
    Comment, Dependency, DependencyType, EventType, Issue, IssueType, SortPolicy, StaleFilter, Status,
    WorkFilter,
};

const NOW: i64 = 1_700_000_000_000_000;
const SECOND: i64 = 1_000_000;

fn issue(id: &str) -> Issue {
    Issue {
        id: id.to_string(),
        content_hash: None,
        title: format!("Issue {}", id),
        description: String::new(),
        design: String::new(),
        acceptance_criteria: String::new(),
        notes: String::new(),
        status: Status::Open,
        priority: 2,
        issue_type: IssueType::Task,
        assignee: String::new(),
        estimated_minutes: None,
        created_at: NOW,
        updated_at: NOW,
        closed_at: None,
        external_ref: None,
        compaction_level: 0,
        compacted_at: None,
        compacted_at_commit: None,
        original_size: 0,
        source_repo: String::new(),
        labels: Vec::new(),
        dependencies: Vec::new(),
        comments: Vec::new(),
    }
}

fn dep(from: &str, to: &str, dep_type: DependencyType) -> Dependency {
    Dependency {
        issue_id: from.to_string(),
        depends_on_id: to.to_string(),
        dep_type,
        created_at: NOW,
        created_by: "tester".to_string(),
    }
}

fn store_with(ids: &[&str]) -> MemoryStorage {
    let mut s = MemoryStorage::new();
    for id in ids {
        s.create_issue_at(&issue(id), "tester", NOW).unwrap();
    }
    s
}

fn ids(list: &Vec<Issue>) -> Vec<String> {
    list.iter().map(|i| i.id.clone()).collect()
}

fn pairs(list: &[(&str, &str)]) -> Vec<(String, String)> {
    list.iter().map(|(k, v)| (k.to_string(), v.to_string())).collect()
}

#[test]
fn new_store_is_empty() {
    let s = MemoryStorage::new();
    assert!(s.issues.is_empty());
    assert!(s.events.is_empty());
    assert!(s.get_dirty_issues().is_empty());
    assert_eq!(s.path(), "");
    assert_eq!(s.close(), Ok(()));
    assert_eq!(s.get_issue("x"), None);
}

#[test]
fn create_records_an_event_and_marks_dirty() {
    let mut s = MemoryStorage::new();
    let mut i = issue("bd-1");
    i.labels.push("dropped".to_string());
    assert_eq!(s.create_issue_at(&i, "alice", NOW + 5), Ok(()));
    let stored = s.get_issue("bd-1").unwrap();
    assert_eq!(stored.title, "Issue bd-1");
    assert!(stored.labels.is_empty());
    assert_eq!(stored.content_hash, Some(issue("bd-1").compute_content_hash()));
    assert_eq!(s.events.len(), 1);
    assert_eq!(s.events[0].id, 1);
    assert_eq!(s.events[0].issue_id, "bd-1");
    assert_eq!(s.events[0].event_type, EventType::Created);
    assert_eq!(s.events[0].actor, "alice");
    assert_eq!(s.events[0].created_at, NOW + 5);
    assert_eq!(s.get_dirty_issues(), vec!["bd-1"]);
}

#[test]
fn create_refuses_an_invalid_issue_and_changes_nothing() {
    let mut s = MemoryStorage::new();
    let mut i = issue("bd-1");
    i.title = String::new();
    assert_eq!(
        s.create_issue_at(&i, "alice", NOW),
        Err(StoreError::Validation("title is required".to_string()))
    );
    assert!(s.issues.is_empty());
    assert!(s.events.is_empty());
    assert!(s.get_dirty_issues().is_empty());
}

#[test]
fn create_refuses_a_taken_id() {
    let mut s = store_with(&["bd-1"]);
    assert_eq!(
        s.create_issue_at(&issue("bd-1"), "alice", NOW),
        Err(StoreError::AlreadyExists("bd-1".to_string()))
    );
    assert_eq!(s.issues.len(), 1);
    assert_eq!(s.events.len(), 1);
}

#[test]
fn create_issues_stops_at_the_first_refusal() {
    let mut s = MemoryStorage::new();
    let mut bad = issue("bad");
    bad.priority = 7;
    let batch = vec![issue("a"), bad, issue("c")];
    assert_eq!(
        s.create_issues_at(&batch, "alice", NOW),
        Err(StoreError::Validation("priority must be between 0 and 4 (got 7)".to_string()))
    );
    assert_eq!(ids(&s.issues), vec!["a"]);
    let mut t = MemoryStorage::new();
    assert_eq!(t.create_issues_at(&vec![issue("a"), issue("b")], "alice", NOW), Ok(()));
    assert_eq!(ids(&t.issues), vec!["a", "b"]);
    assert_eq!(t.get_dirty_issues(), vec!["a", "b"]);
}

#[test]
fn close_sets_status_and_times() {
    let mut s = store_with(&["bd-1"]);
    assert_eq!(s.close_issue_at("bd-1", "done", "bob", NOW + SECOND), Ok(()));
    let i = s.get_issue("bd-1").unwrap();
    assert_eq!(i.status, Status::Closed);
    assert_eq!(i.closed_at, Some(NOW + SECOND));
    assert_eq!(i.updated_at, NOW + SECOND);
    assert_eq!(i.validate(), Ok(()));
    assert_eq!(i.content_hash, Some(i.compute_content_hash()));
    let e = s.events.last().unwrap();
    assert_eq!(e.event_type, EventType::Closed);
    assert_eq!(e.comment, Some("done".to_string()));
    assert_eq!(e.actor, "bob");
    assert_eq!(e.id, 2);
}

#[test]
fn close_of_an_unknown_issue_is_not_found() {
    let mut s = store_with(&["bd-1"]);
    let before = s.clone();
    assert_eq!(
        s.close_issue_at("nope", "done", "bob", NOW),
        Err(StoreError::NotFound("nope".to_string()))
    );
    assert_eq!(s.issues, before.issues);
    assert_eq!(s.events, before.events);
}

#[test]
fn update_applies_fields_in_order() {
    let mut s = store_with(&["bd-1"]);
    s.clear_dirty_issues();
    let updates = pairs(&[
        ("title", "New title"),
        ("priority", "0"),
        ("status", "in_progress"),
        ("assignee", "carol"),
        ("issue_type", "bug"),
        ("external_ref", "GH-1"),
        ("title", "Newer title"),
    ]);
    assert_eq!(s.update_issue_at("bd-1", &updates, "bob", NOW + 9), Ok(()));
    let i = s.get_issue("bd-1").unwrap();
    assert_eq!(i.title, "Newer title");
    assert_eq!(i.priority, 0);
    assert_eq!(i.status, Status::InProgress);
    assert_eq!(i.assignee, "carol");
    assert_eq!(i.issue_type, IssueType::Bug);
    assert_eq!(i.external_ref, Some("GH-1".to_string()));
    assert_eq!(i.updated_at, NOW + 9);
    assert_eq!(i.content_hash, Some(i.compute_content_hash()));
    assert_eq!(s.events.len(), 1 + updates.len());
    assert_eq!(s.events[1].event_type, EventType::Updated);
    assert_eq!(s.events[1].new_value, Some("New title".to_string()));
    assert_eq!(s.events[7].new_value, Some("Newer title".to_string()));
    assert_eq!(s.get_dirty_issues(), vec!["bd-1"]);
}

#[test]
fn update_to_closed_and_back_keeps_the_closing_time_rule() {
    let mut s = store_with(&["bd-1"]);
    assert_eq!(s.update_issue_at("bd-1", &pairs(&[("status", "closed")]), "bob", NOW + 1), Ok(()));
    let i = s.get_issue("bd-1").unwrap();
    assert_eq!(i.status, Status::Closed);
    assert_eq!(i.closed_at, Some(NOW + 1));
    assert_eq!(s.update_issue_at("bd-1", &pairs(&[("status", "open")]), "bob", NOW + 2), Ok(()));
    let i = s.get_issue("bd-1").unwrap();
    assert_eq!(i.status, Status::Open);
    assert_eq!(i.closed_at, None);
    assert_eq!(s.update_issue_at("bd-1", &pairs(&[("external_ref", "")]), "bob", NOW + 3), Ok(()));
    assert_eq!(s.get_issue("bd-1").unwrap().external_ref, None);
}

#[test]
fn update_refusals_change_nothing() {
    let mut s = store_with(&["bd-1"]);
    let before = s.clone();
    assert_eq!(
        s.update_issue_at("nope", &pairs(&[("title", "x")]), "bob", NOW),
        Err(StoreError::NotFound("nope".to_string()))
    );
    assert_eq!(
        s.update_issue_at("bd-1", &pairs(&[("title", "x"), ("colour", "red")]), "bob", NOW),
        Err(StoreError::Validation("cannot update field: colour".to_string()))
    );
    assert_eq!(
        s.update_issue_at("bd-1", &pairs(&[("priority", "5")]), "bob", NOW),
        Err(StoreError::Validation("cannot update field: priority".to_string()))
    );
    assert_eq!(
        s.update_issue_at("bd-1", &pairs(&[("status", "done")]), "bob", NOW),
        Err(StoreError::Validation("cannot update field: status".to_string()))
    );
    assert_eq!(
        s.update_issue_at("bd-1", &pairs(&[("title", "")]), "bob", NOW),
        Err(StoreError::Validation("title is required".to_string()))
    );
    assert_eq!(s.issues, before.issues);
    assert_eq!(s.events, before.events);
    assert_eq!(s.dirty, before.dirty);
}

#[test]
fn dependencies_are_kept_with_their_issue() {
    let mut s = store_with(&["A", "B", "C"]);
    assert_eq!(s.add_dependency_at(&dep("A", "B", DependencyType::Blocks), "bob", NOW), Ok(()));
    assert_eq!(s.add_dependency_at(&dep("A", "ghost", DependencyType::Related), "bob", NOW), Ok(()));
    assert_eq!(s.add_dependency_at(&dep("C", "A", DependencyType::ParentChild), "bob", NOW), Ok(()));
    assert_eq!(
        s.add_dependency_at(&dep("A", "B", DependencyType::Related), "bob", NOW),
        Err(StoreError::AlreadyExists("B".to_string()))
    );
    assert_eq!(s.add_dependency_at(&dep("ghost", "B", DependencyType::Blocks), "bob", NOW), Ok(()));
    assert_eq!(s.get_dependency_records("ghost"), vec![dep("ghost", "B", DependencyType::Blocks)]);
    assert_eq!(s.loose_dependencies(), vec![dep("ghost", "B", DependencyType::Blocks)]);
    let records = s.get_dependency_records("A");
    assert_eq!(records.len(), 2);
    assert_eq!(records[0], dep("A", "B", DependencyType::Blocks));
    assert!(s.get_dependency_records("B").is_empty());
    assert!(s.get_dependency_records("nope").is_empty());
    assert_eq!(s.all_dependencies().len(), 4);
    assert_eq!(s.all_dependencies()[3], dep("ghost", "B", DependencyType::Blocks));
    assert_eq!(ids(&s.get_dependencies("A")), vec!["B"]);
    assert_eq!(ids(&s.get_dependents("A")), vec!["C"]);
    assert_eq!(ids(&s.get_dependents("B")), vec!["A"]);
    let all = s.get_all_dependency_records();
    assert_eq!(all.len(), 3);
    assert_eq!(all.get("A").unwrap().len(), 2);
    assert_eq!(all.get("C").unwrap().len(), 1);
    assert_eq!(all.get("ghost").unwrap(), &vec![dep("ghost", "B", DependencyType::Blocks)]);
    assert!(all.get("B").is_none());
    let e = &s.events[3];
    assert_eq!(e.event_type, EventType::DependencyAdded);
    assert_eq!(e.new_value, Some("B".to_string()));
}

#[test]
fn removing_a_dependency() {
    let mut s = store_with(&["A", "B"]);
    s.add_dependency_at(&dep("A", "B", DependencyType::Blocks), "bob", NOW).unwrap();
    s.clear_dirty_issues();
    assert_eq!(
        s.remove_dependency_at("A", "C", "bob", NOW),
        Err(StoreError::NotFound("C".to_string()))
    );
    assert_eq!(
        s.remove_dependency_at("Z", "B", "bob", NOW),
        Err(StoreError::NotFound("Z".to_string()))
    );
    assert!(s.get_dirty_issues().is_empty());
    assert_eq!(s.remove_dependency_at("A", "B", "bob", NOW), Ok(()));
    assert!(s.get_dependency_records("A").is_empty());
    let e = s.events.last().unwrap();
    assert_eq!(e.event_type, EventType::DependencyRemoved);
    assert_eq!(e.old_value, Some("B".to_string()));
    assert_eq!(s.get_dirty_issues(), vec!["A"]);
}

#[test]
fn labels_are_a_set() {
    let mut s = store_with(&["A", "B"]);
    assert_eq!(s.add_label_at("A", "backend", "bob", NOW), Ok(()));
    assert_eq!(s.add_label_at("A", "urgent", "bob", NOW), Ok(()));
    assert_eq!(s.add_label_at("A", "backend", "bob", NOW), Ok(()));
    assert_eq!(s.add_label_at("B", "backend", "bob", NOW), Ok(()));
    assert_eq!(s.get_labels("A"), vec!["backend", "urgent"]);
    assert_eq!(ids(&s.get_issues_by_label("backend")), vec!["A", "B"]);
    assert_eq!(ids(&s.get_issues_by_label("urgent")), vec!["A"]);
    assert_eq!(s.remove_label_at("A", "backend", "bob", NOW), Ok(()));
    assert_eq!(s.get_labels("A"), vec!["urgent"]);
    assert_eq!(s.remove_label_at("A", "backend", "bob", NOW), Ok(()));
    assert_eq!(s.get_labels("A"), vec!["urgent"]);
    assert_eq!(
        s.add_label_at("nope", "x", "bob", NOW),
        Err(StoreError::NotFound("nope".to_string()))
    );
    assert_eq!(
        s.remove_label_at("nope", "x", "bob", NOW),
        Err(StoreError::NotFound("nope".to_string()))
    );
    assert!(s.get_labels("nope").is_empty());
    // two creations, four additions, two removals
    assert_eq!(s.events.len(), 8);
    assert_eq!(s.events[4].event_type, EventType::LabelAdded);
    assert_eq!(s.events[7].event_type, EventType::LabelRemoved);
    assert_eq!(s.events[7].old_value, Some("backend".to_string()));
}

#[test]
fn comments_get_consecutive_ids() {
    let mut s = store_with(&["A", "B"]);
    let c1 = s.add_issue_comment_at("A", "bob", "first", NOW + 1).unwrap();
    let c2 = s.add_issue_comment_at("B", "eve", "second", NOW + 2).unwrap();
    assert_eq!(s.add_comment_at("A", "bob", "third", NOW + 3), Ok(()));
    assert_eq!((c1.id, c2.id), (1, 2));
    assert_eq!(c1.issue_id, "A");
    assert_eq!(c1.author, "bob");
    assert_eq!(c1.text, "first");
    assert_eq!(c1.created_at, NOW + 1);
    let of_a = s.get_issue_comments("A");
    assert_eq!(of_a.len(), 2);
    assert_eq!(of_a[0], c1);
    assert_eq!(of_a[1].id, 3);
    assert_eq!(of_a[1].text, "third");
    assert!(s.get_issue_comments("nope").is_empty());
    assert_eq!(
        s.add_issue_comment_at("nope", "bob", "x", NOW),
        Err(StoreError::NotFound("nope".to_string()))
    );
    let e = s.events.last().unwrap();
    assert_eq!(e.event_type, EventType::Commented);
    assert_eq!(e.comment, Some("third".to_string()));
}

#[test]
fn events_of_an_issue_with_limit() {
    let mut s = store_with(&["A", "B"]);
    s.add_label_at("A", "x", "bob", NOW).unwrap();
    s.add_label_at("B", "y", "bob", NOW).unwrap();
    s.close_issue_at("A", "done", "bob", NOW).unwrap();
    let all = s.get_events("A", 0);
    assert_eq!(
        all.iter().map(|e| e.event_type).collect::<Vec<_>>(),
        vec![EventType::Created, EventType::LabelAdded, EventType::Closed]
    );
    assert_eq!(s.get_events("A", 2).len(), 2);
    assert_eq!(s.get_events("A", 2)[1].event_type, EventType::LabelAdded);
    assert_eq!(s.get_events("A", 9).len(), 3);
    assert_eq!(s.get_events("A", -1).len(), 3);
    assert!(s.get_events("nope", 0).is_empty());
}

#[test]
fn delete_cascades() {
    let mut s = store_with(&["A", "B", "C"]);
    s.add_dependency_at(&dep("A", "B", DependencyType::Blocks), "bob", NOW).unwrap();
    s.add_dependency_at(&dep("A", "C", DependencyType::Blocks), "bob", NOW).unwrap();
    s.add_dependency_at(&dep("B", "C", DependencyType::Blocks), "bob", NOW).unwrap();
    s.add_label_at("B", "x", "bob", NOW).unwrap();
    s.set_export_hash("B", "h");
    s.set_export_hash("A", "g");
    let events = s.events.len();
    assert_eq!(s.delete_issue("B"), Ok(()));
    assert_eq!(ids(&s.issues), vec!["A", "C"]);
    assert_eq!(s.get_dependency_records("A"), vec![dep("A", "C", DependencyType::Blocks)]);
    assert_eq!(s.get_dirty_issues(), vec!["A", "C"]);
    assert_eq!(s.get_export_hash("B"), None);
    assert_eq!(s.get_export_hash("A"), Some("g".to_string()));
    assert_eq!(s.events.len(), events);
    assert_eq!(s.delete_issue("B"), Err(StoreError::NotFound("B".to_string())));
}

#[test]
fn lookup_by_external_reference() {
    let mut s = MemoryStorage::new();
    let mut a = issue("A");
    a.external_ref = Some("GH-1".to_string());
    let mut b = issue("B");
    b.external_ref = Some("GH-2".to_string());
    s.create_issue_at(&a, "bob", NOW).unwrap();
    s.create_issue_at(&b, "bob", NOW).unwrap();
    s.create_issue_at(&issue("C"), "bob", NOW).unwrap();
    assert_eq!(s.get_issue_by_external_ref("GH-2").unwrap().id, "B");
    assert_eq!(s.get_issue_by_external_ref("GH-3"), None);
    assert_eq!(s.get_issue_by_external_ref(""), None);
}

#[test]
fn dirty_marks_are_idempotent_and_ordered() {
    let mut s = store_with(&["A", "B", "C"]);
    s.mark_dirty_at("A", NOW);
    s.add_label_at("B", "x", "bob", NOW).unwrap();
    s.mark_dirty_at("unknown", NOW);
    assert_eq!(s.get_dirty_issues(), vec!["A", "B", "C", "unknown"]);
    s.clear_dirty_issues_by_id(&vec!["B".to_string(), "nope".to_string()]);
    assert_eq!(s.get_dirty_issues(), vec!["A", "C", "unknown"]);
    s.mark_dirty_at("B", NOW);
    assert_eq!(s.get_dirty_issues(), vec!["A", "C", "unknown", "B"]);
    s.clear_dirty_issues();
    assert!(s.get_dirty_issues().is_empty());
}

#[test]
fn dirty_issue_hash_is_the_content_hash() {
    let s = store_with(&["A"]);
    assert_eq!(s.get_dirty_issue_hash("A"), issue("A").compute_content_hash());
    assert_eq!(s.get_dirty_issue_hash("nope"), "");
}

#[test]
fn export_hashes_config_and_metadata() {
    let mut s = MemoryStorage::new();
    assert_eq!(s.get_export_hash("A"), None);
    s.set_export_hash("A", "h1");
    s.set_export_hash("A", "h2");
    s.set_export_hash("B", "h3");
    assert_eq!(s.get_export_hash("A"), Some("h2".to_string()));
    s.clear_all_export_hashes();
    assert_eq!(s.get_export_hash("A"), None);
    assert_eq!(s.get_export_hash("B"), None);

    assert_eq!(s.get_config("prefix"), None);
    s.set_config("prefix", "bd");
    s.set_config("colour", "off");
    s.set_config("prefix", "beads");
    assert_eq!(s.get_config("prefix"), Some("beads".to_string()));
    let mut all = s.get_all_config();
    all.sort();
    assert_eq!(all, pairs(&[("colour", "off"), ("prefix", "beads")]));
    s.delete_config("prefix");
    s.delete_config("never-set");
    assert_eq!(s.get_config("prefix"), None);
    assert_eq!(s.get_all_config(), pairs(&[("colour", "off")]));

    assert_eq!(s.get_metadata("k"), None);
    s.set_metadata("k", "v");
    assert_eq!(s.get_metadata("k"), Some("v".to_string()));
    assert_eq!(s.get_jsonl_file_hash(), None);
    s.set_jsonl_file_hash("abc");
    assert_eq!(s.get_jsonl_file_hash(), Some("abc".to_string()));
    assert_eq!(s.get_metadata("jsonl_file_hash"), Some("abc".to_string()));
}

#[test]
fn child_ids_count_up_per_parent() {
    let mut s = MemoryStorage::new();
    assert_eq!(s.get_next_child_id("bd-1"), Ok("bd-1.1".to_string()));
    assert_eq!(s.get_next_child_id("bd-1"), Ok("bd-1.2".to_string()));
    assert_eq!(s.get_next_child_id("bd-2"), Ok("bd-2.1".to_string()));
    assert_eq!(s.get_next_child_id("bd-1.2"), Ok("bd-1.2.1".to_string()));
    assert_eq!(s.get_next_child_id("bd-1"), Ok("bd-1.3".to_string()));
}

#[test]
fn child_ids_run_out() {
    let mut s = MemoryStorage::new();
    s.counters.push(("p".to_string(), i32::MAX - 1));
    assert_eq!(s.get_next_child_id("p"), Ok(format!("p.{}", i32::MAX)));
    let before = s.counters.clone();
    assert!(matches!(s.get_next_child_id("p"), Err(StoreError::Store(_))));
    assert_eq!(s.counters, before);
}

#[test]
fn ready_work_follows_closing_in_the_store() {
    let mut s = store_with(&["A", "B"]);
    s.add_dependency_at(&dep("B", "A", DependencyType::Blocks), "bob", NOW).unwrap();
    let filter = WorkFilter::default();
    assert_eq!(ids(&s.get_ready_work_at(&filter, NOW)), vec!["A"]);
    let blocked = s.get_blocked_issues();
    assert_eq!(blocked.len(), 1);
    assert_eq!(blocked[0].issue.id, "B");
    assert_eq!(blocked[0].blocked_by, vec!["A"]);
    s.close_issue_at("A", "done", "bob", NOW).unwrap();
    assert_eq!(ids(&s.get_ready_work_at(&filter, NOW)), vec!["B"]);
    assert!(s.get_blocked_issues().is_empty());
}

#[test]
fn ready_work_uses_the_labels_of_the_store() {
    let mut s = store_with(&["A", "B"]);
    s.add_label_at("B", "backend", "bob", NOW).unwrap();
    let mut filter = WorkFilter::default();
    filter.labels = vec!["backend".to_string()];
    filter.sort_policy = SortPolicy::Oldest;
    assert_eq!(ids(&s.get_ready_work_at(&filter, NOW)), vec!["B"]);
}

#[test]
fn epic_closure_follows_the_children() {
    let mut s = MemoryStorage::new();
    let mut e = issue("E");
    e.issue_type = IssueType::Epic;
    s.create_issue_at(&e, "bob", NOW).unwrap();
    assert!(!s.get_epics_eligible_for_closure()[0].eligible_for_close);
    for c in ["c1", "c2", "c3"] {
        s.create_issue_at(&issue(c), "bob", NOW).unwrap();
        s.add_dependency_at(&dep(c, "E", DependencyType::ParentChild), "bob", NOW).unwrap();
    }
    s.close_issue_at("c1", "done", "bob", NOW).unwrap();
    s.close_issue_at("c2", "done", "bob", NOW).unwrap();
    let report = s.get_epics_eligible_for_closure();
    assert_eq!((report[0].total_children, report[0].closed_children), (3, 2));
    assert!(!report[0].eligible_for_close);
    s.close_issue_at("c3", "done", "bob", NOW).unwrap();
    let report = s.get_epics_eligible_for_closure();
    assert_eq!((report[0].total_children, report[0].closed_children), (3, 3));
    assert!(report[0].eligible_for_close);
}

#[test]
fn cycles_and_trees_of_the_store() {
    let mut s = store_with(&["A", "B", "C"]);
    s.add_dependency_at(&dep("A", "B", DependencyType::Blocks), "bob", NOW).unwrap();
    s.add_dependency_at(&dep("B", "C", DependencyType::Blocks), "bob", NOW).unwrap();
    assert!(s.detect_cycles().is_empty());
    s.add_dependency_at(&dep("C", "A", DependencyType::Blocks), "bob", NOW).unwrap();
    let cycles = s.detect_cycles();
    assert_eq!(cycles.len(), 1);
    assert_eq!(cycles[0].len(), 3);
    let tree = s.get_dependency_tree("A", 0, false, false).unwrap();
    assert_eq!(tree.iter().map(|n| n.issue.id.as_str()).collect::<Vec<_>>(), vec!["A", "B", "C"]);
    assert_eq!(
        s.get_dependency_tree("nope", 0, false, false),
        Err(StoreError::NotFound("nope".to_string()))
    );
    let counts = s.get_dependency_counts(&vec!["A".to_string()]);
    let a = counts.get("A").unwrap();
    assert_eq!((a.dependency_count, a.dependent_count), (1, 1));
}

#[test]
fn stale_issues_of_the_store() {
    let mut s = store_with(&["A", "B"]);
    let day = 86_400 * SECOND;
    s.update_issue_at("B", &pairs(&[("notes", "touched")]), "bob", NOW + 20 * day).unwrap();
    let filter = StaleFilter { days: 14, status: String::new(), limit: 0 };
    assert_eq!(ids(&s.get_stale_issues_at(&filter, NOW + 30 * day)), vec!["A"]);
}

#[test]
fn statistics_count_the_store() {
    let mut s = MemoryStorage::new();
    let mut e = issue("E");
    e.issue_type = IssueType::Epic;
    s.create_issue_at(&e, "bob", NOW).unwrap();
    for id in ["a", "b", "c", "d"] {
        s.create_issue_at(&issue(id), "bob", NOW).unwrap();
    }
    s.add_dependency_at(&dep("a", "E", DependencyType::ParentChild), "bob", NOW).unwrap();
    s.add_dependency_at(&dep("c", "b", DependencyType::Blocks), "bob", NOW).unwrap();
    s.update_issue_at("d", &pairs(&[("status", "in_progress")]), "bob", NOW).unwrap();
    s.close_issue_at("a", "done", "bob", NOW + 90 * SECOND + 999_999).unwrap();
    let stats = s.get_statistics();
    assert_eq!(stats.total_issues, 5);
    assert_eq!(stats.open_issues, 3);
    assert_eq!(stats.in_progress_issues, 1);
    assert_eq!(stats.closed_issues, 1);
    assert_eq!(stats.blocked_issues, 1);
    assert_eq!(stats.ready_issues, 2);
    assert_eq!(stats.epics_eligible_for_closure, 1);
    assert_eq!(stats.lead_time_seconds, 90);
    assert_eq!(stats.lead_time_samples, 1);
}

#[test]
fn clock_reading_operations_use_a_plausible_time() {
    let mut s = MemoryStorage::new();
    assert_eq!(s.create_issue(&issue("A"), "bob"), Ok(()));
    assert_eq!(s.close_issue("A", "done", "bob"), Ok(()));
    let closed_at = s.get_issue("A").unwrap().closed_at.unwrap();
    // after 2020 and before 2200, in microseconds
    assert!(closed_at > 1_577_836_800_000_000);
    assert!(closed_at < 7_258_118_400_000_000);
    assert!(s.events[1].created_at >= s.events[0].created_at);
    assert_eq!(s.add_label("A", "x", "bob"), Ok(()));
    assert_eq!(s.remove_label("A", "x", "bob"), Ok(()));
    assert_eq!(s.add_comment("A", "bob", "hi"), Ok(()));
    assert_eq!(s.add_dependency(&dep("A", "B", DependencyType::Blocks), "bob"), Ok(()));
    assert_eq!(s.remove_dependency("A", "B", "bob"), Ok(()));
    assert_eq!(s.update_issue("A", &pairs(&[("notes", "n")]), "bob"), Ok(()));
    assert!(s.get_ready_work(&WorkFilter::default()).is_empty());
    let filter = StaleFilter { days: 1, status: "closed".to_string(), limit: 0 };
    assert!(s.get_stale_issues(&filter).is_empty());
}

#[test]
fn text_map_keeps_the_last_value() {
    let mut m = TextMap::new();
    assert_eq!(m.get("a"), None);
    m.set("a", "1");
    m.set("b", "2");
    m.set("a", "3");
    assert_eq!(m.get("a"), Some("3".to_string()));
    assert_eq!(m.get("b"), Some("2".to_string()));
    assert_eq!(m.to_pairs(), pairs(&[("a", "3"), ("b", "2")]));
    m.remove("a");
    assert_eq!(m.get("a"), None);
    assert_eq!(m.to_pairs(), pairs(&[("b", "2")]));
    m.remove("zzz");
    m.clear();
    assert!(m.to_pairs().is_empty());
    assert_eq!(m.get("b"), None);
}

#[test]
fn dirty_marks_keep_the_time_of_the_first_marking() {
    let mut s = MemoryStorage::new();
    s.mark_dirty_at("A", 10);
    s.mark_dirty_at("B", 20);
    s.mark_dirty_at("A", 30);
    assert_eq!(s.dirty.len(), 2);
    assert_eq!((s.dirty[0].issue_id.as_str(), s.dirty[0].marked_at), ("A", 10));
    assert_eq!((s.dirty[1].issue_id.as_str(), s.dirty[1].marked_at), ("B", 20));
    assert!(s.is_dirty("A"));
    assert!(!s.is_dirty("C"));
    s.mark_dirty("C");
    assert!(s.is_dirty("C"));
    assert!(s.dirty[2].marked_at > 1_577_836_800_000_000);
}

#[test]
fn external_reference_stands_for_one_issue() {
    let mut s = MemoryStorage::new();
    let mut a = issue("A");
    a.external_ref = Some("GH-1".to_string());
    let mut b = issue("B");
    b.external_ref = Some("GH-1".to_string());
    assert_eq!(s.create_issue_at(&a, "bob", NOW), Ok(()));
    assert_eq!(
        s.create_issue_at(&b, "bob", NOW),
        Err(StoreError::AlreadyExists("GH-1".to_string()))
    );
    assert_eq!(s.issues.len(), 1);
    b.external_ref = Some("GH-2".to_string());
    assert_eq!(s.create_issue_at(&b, "bob", NOW), Ok(()));
    let before = s.clone();
    assert_eq!(
        s.update_issue_at("B", &pairs(&[("title", "x"), ("external_ref", "GH-1")]), "bob", NOW),
        Err(StoreError::AlreadyExists("GH-1".to_string()))
    );
    assert_eq!(s.issues, before.issues);
    assert_eq!(s.events, before.events);
    // An issue may be given the reference that it has.
    assert_eq!(s.update_issue_at("B", &pairs(&[("external_ref", "GH-2")]), "bob", NOW), Ok(()));
    // A reference that is given up is free again.
    assert_eq!(s.update_issue_at("A", &pairs(&[("external_ref", "")]), "bob", NOW), Ok(()));
    assert_eq!(s.update_issue_at("B", &pairs(&[("external_ref", "GH-1")]), "bob", NOW), Ok(()));
    assert_eq!(s.get_issue_by_external_ref("GH-1").unwrap().id, "B");
    assert_eq!(s.reference_conflict(&a), Some("GH-1".to_string()));
    assert_eq!(s.reference_conflict(&issue("C")), None);
}

#[test]
fn metadata_can_be_deleted() {
    let mut s = MemoryStorage::new();
    s.set_metadata("k", "v");
    s.delete_metadata("k");
    s.delete_metadata("never-set");
    assert_eq!(s.get_metadata("k"), None);
}

#[test]
fn new_comment_differs_from_every_stored_comment() {
    let mut s = store_with(&["A", "B"]);
    // A comment that was put into the store with an id beyond the counter.
    s.issues[1].comments.push(Comment {
        id: 5,
        issue_id: "B".to_string(),
        author: "eve".to_string(),
        text: "early".to_string(),
        created_at: NOW,
    });
    let c = s.add_issue_comment_at("A", "bob", "first", NOW).unwrap();
    assert_eq!(c.id, 6);
    assert_eq!(s.next_comment_id, 7);
    assert_eq!(s.add_issue_comment_at("A", "bob", "second", NOW).unwrap().id, 7);
}

#[test]
fn comment_ids_run_out() {
    let mut s = store_with(&["A"]);
    s.next_comment_id = i64::MAX;
    assert_eq!(s.add_issue_comment_at("A", "bob", "last", NOW).unwrap().id, i64::MAX);
    let before = s.clone();
    assert!(matches!(s.add_issue_comment_at("A", "bob", "none", NOW), Err(StoreError::Store(_))));
    assert!(matches!(s.add_comment_at("A", "bob", "none", NOW), Err(StoreError::Store(_))));
    assert_eq!(s.issues, before.issues);
    assert_eq!(s.events, before.events);
}

#[test]
fn edge_for_an_unknown_issue_is_accepted() {
    let mut s = store_with(&["B"]);
    let before = s.events.len();
    assert_eq!(s.add_dependency_at(&dep("A", "B", DependencyType::Blocks), "bob", NOW), Ok(()));
    assert_eq!(s.add_dependency_at(&dep("A", "C", DependencyType::Related), "ann", NOW + 1), Ok(()));
    assert_eq!(s.add_dependency_at(&dep("Z", "B", DependencyType::Blocks), "bob", NOW + 2), Ok(()));
    assert_eq!(ids(&s.issues), vec!["B"]);
    assert_eq!(s.loose.len(), 3);
    assert_eq!(
        s.get_dependency_records("A"),
        vec![dep("A", "B", DependencyType::Blocks), dep("A", "C", DependencyType::Related)]
    );
    assert_eq!(s.events.len(), before + 3);
    let e = &s.events[before];
    assert_eq!(e.issue_id, "A");
    assert_eq!(e.event_type, EventType::DependencyAdded);
    assert_eq!(e.actor, "bob");
    assert_eq!(e.new_value, Some("B".to_string()));
    assert!(s.is_dirty("A"));
    assert!(s.is_dirty("Z"));
    assert_eq!(s.all_dependencies().len(), 3);
    assert!(s.get_dependents("B").is_empty());
    let counts = s.get_dependency_counts(&vec!["A".to_string(), "B".to_string()]);
    assert_eq!(counts.get("A").unwrap().dependency_count, 1);
    assert_eq!(counts.get("A").unwrap().dependent_count, 0);
    assert_eq!(counts.get("B").unwrap().dependency_count, 0);
    assert_eq!(counts.get("B").unwrap().dependent_count, 2);
    assert!(s.get_blocked_issues().is_empty());
    assert!(s.detect_cycles().is_empty());
    let all = s.get_all_dependency_records();
    assert_eq!(all.len(), 2);
    assert_eq!(all.get("A").unwrap().len(), 2);
    assert_eq!(all.get("Z").unwrap().len(), 1);
}

#[test]
fn loose_edge_is_refused_a_second_time() {
    let mut s = MemoryStorage::new();
    assert_eq!(s.add_dependency_at(&dep("A", "B", DependencyType::Blocks), "bob", NOW), Ok(()));
    let before = s.clone();
    assert_eq!(
        s.add_dependency_at(&dep("A", "B", DependencyType::Related), "bob", NOW + 1),
        Err(StoreError::AlreadyExists("B".to_string()))
    );
    assert_eq!(s.loose, before.loose);
    assert_eq!(s.events, before.events);
    assert_eq!(s.dirty, before.dirty);
    assert_eq!(s.add_dependency_at(&dep("B", "A", DependencyType::Blocks), "bob", NOW + 2), Ok(()));
    assert_eq!(s.add_dependency_at(&dep("A", "C", DependencyType::Blocks), "bob", NOW + 3), Ok(()));
    assert_eq!(s.loose.len(), 3);
}

#[test]
fn created_issue_takes_the_edges_added_for_it() {
    let mut s = store_with(&["B"]);
    s.add_dependency_at(&dep("A", "B", DependencyType::Blocks), "bob", NOW).unwrap();
    s.add_dependency_at(&dep("Z", "A", DependencyType::Blocks), "bob", NOW).unwrap();
    s.add_dependency_at(&dep("A", "C", DependencyType::ParentChild), "bob", NOW).unwrap();
    let mut a = issue("A");
    a.dependencies = vec![dep("A", "X", DependencyType::Blocks)];
    assert_eq!(s.create_issue_at(&a, "bob", NOW + 5), Ok(()));
    assert_eq!(
        s.get_dependency_records("A"),
        vec![dep("A", "B", DependencyType::Blocks), dep("A", "C", DependencyType::ParentChild)]
    );
    assert_eq!(s.get_issue("A").unwrap().dependencies.len(), 2);
    assert_eq!(s.loose_dependencies(), vec![dep("Z", "A", DependencyType::Blocks)]);
    assert_eq!(s.all_dependencies().len(), 3);
    assert_eq!(ids(&s.get_dependencies("A")), vec!["B"]);
    assert_eq!(ids(&s.get_dependents("B")), vec!["A"]);
    assert_eq!(
        s.add_dependency_at(&dep("A", "B", DependencyType::Related), "bob", NOW + 6),
        Err(StoreError::AlreadyExists("B".to_string()))
    );
    let open = WorkFilter {
        status: Status::Open,
        priority: None,
        assignee: None,
        labels: Vec::new(),
        labels_any: Vec::new(),
        limit: 0,
        sort_policy: SortPolicy::Oldest,
    };
    assert_eq!(ids(&s.get_ready_work_at(&open, NOW + 7)), vec!["B"]);
}

#[test]
fn issue_without_loose_edges_is_created_without_edges() {
    let mut s = MemoryStorage::new();
    s.add_dependency_at(&dep("Z", "A", DependencyType::Blocks), "bob", NOW).unwrap();
    let mut a = issue("A");
    a.dependencies = vec![dep("A", "X", DependencyType::Blocks)];
    assert_eq!(s.create_issue_at(&a, "bob", NOW), Ok(()));
    assert!(s.get_dependency_records("A").is_empty());
    assert_eq!(s.loose.len(), 1);
}

#[test]
fn loose_edge_can_be_removed() {
    let mut s = store_with(&["B"]);
    s.add_dependency_at(&dep("A", "B", DependencyType::Blocks), "bob", NOW).unwrap();
    s.add_dependency_at(&dep("A", "C", DependencyType::Blocks), "bob", NOW).unwrap();
    s.clear_dirty_issues();
    assert_eq!(
        s.remove_dependency_at("A", "D", "bob", NOW),
        Err(StoreError::NotFound("A".to_string()))
    );
    assert!(s.get_dirty_issues().is_empty());
    assert_eq!(s.remove_dependency_at("A", "B", "bob", NOW), Ok(()));
    assert_eq!(s.loose_dependencies(), vec![dep("A", "C", DependencyType::Blocks)]);
    let e = s.events.last().unwrap();
    assert_eq!(e.event_type, EventType::DependencyRemoved);
    assert_eq!(e.issue_id, "A");
    assert_eq!(e.old_value, Some("B".to_string()));
    assert_eq!(s.get_dirty_issues(), vec!["A"]);
    assert_eq!(
        s.remove_dependency_at("A", "B", "bob", NOW),
        Err(StoreError::NotFound("A".to_string()))
    );
}

#[test]
fn delete_drops_the_loose_edges_to_the_issue() {
    let mut s = store_with(&["B", "C"]);
    s.add_dependency_at(&dep("A", "B", DependencyType::Blocks), "bob", NOW).unwrap();
    s.add_dependency_at(&dep("A", "C", DependencyType::Blocks), "bob", NOW).unwrap();
    assert_eq!(s.delete_issue("B"), Ok(()));
    assert_eq!(s.loose_dependencies(), vec![dep("A", "C", DependencyType::Blocks)]);
}
