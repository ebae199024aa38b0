use bd::hash::sha256_hex;
use bd::memory::MemoryStorage;
use bd::sync::{
    export_decision, import_decision, position_of, put_record, ExportAction, ImportAction,
};
use bd::types::{Comment, Dependency, DependencyType, EventType, Issue, IssueType, Status};

const NOW: i64 = 1_700_000_000_000_000;

fn issue(id: &str) -> Issue {
    Issue {
        id: id.to_string(),
        content_hash: None,
        title: format!("Issue {}", id),
        description: String::new(),
        design: String::new(),
        acceptance_criteria: String::new(),
        notes: String::new(),
        status: Status::Open,
        priority: 2,
        issue_type: IssueType::Task,
        assignee: String::new(),
        estimated_minutes: None,
        created_at: NOW,
        updated_at: NOW,
        closed_at: None,
        external_ref: None,
        compaction_level: 0,
        compacted_at: None,
        compacted_at_commit: None,
        original_size: 0,
        source_repo: String::new(),
        labels: Vec::new(),
        dependencies: Vec::new(),
        comments: Vec::new(),
    }
}

fn dep(from: &str, to: &str) -> Dependency {
    Dependency {
        issue_id: from.to_string(),
        depends_on_id: to.to_string(),
        dep_type: DependencyType::Blocks,
        created_at: NOW,
        created_by: "tester".to_string(),
    }
}

fn pairs(list: &[(&str, &str)]) -> Vec<(String, String)> {
    list.iter().map(|(k, v)| (k.to_string(), v.to_string())).collect()
}

fn ids(list: &Vec<Issue>) -> Vec<String> {
    list.iter().map(|i| i.id.clone()).collect()
}

fn busy_store() -> MemoryStorage {
    let mut s = MemoryStorage::new();
    let mut a = issue("A");
    a.description = "first".to_string();
    a.estimated_minutes = Some(15);
    a.external_ref = Some("GH-1".to_string());
    s.create_issue_at(&a, "alice", NOW + 1).unwrap();
    s.create_issue_at(&issue("B"), "alice", NOW + 2).unwrap();
    s.create_issue_at(&issue("C"), "alice", NOW + 3).unwrap();
    s.add_label_at("A", "backend", "alice", NOW + 4).unwrap();
    s.add_label_at("A", "urgent", "alice", NOW + 5).unwrap();
    s.add_dependency_at(&dep("A", "B"), "alice", NOW + 6).unwrap();
    s.add_dependency_at(&dep("C", "ghost"), "alice", NOW + 7).unwrap();
    s.add_issue_comment_at("B", "bob", "looks good", NOW + 8).unwrap();
    s.close_issue_at("C", "done", "bob", NOW + 9).unwrap();
    s
}

#[test]
fn export_decisions() {
    assert_eq!(export_decision("h", None), ExportAction::Write);
    assert_eq!(export_decision("h", Some("g")), ExportAction::Write);
    assert_eq!(export_decision("h", Some("h")), ExportAction::Skip);
}

#[test]
fn import_decisions() {
    assert_eq!(import_decision("in", None, None), ImportAction::Create);
    assert_eq!(import_decision("in", None, Some("ex")), ImportAction::Create);
    assert_eq!(import_decision("in", Some("in"), None), ImportAction::Keep);
    assert_eq!(import_decision("in", Some("in"), Some("ex")), ImportAction::Keep);
    assert_eq!(import_decision("in", Some("cur"), Some("cur")), ImportAction::Update);
    assert_eq!(import_decision("in", Some("cur"), Some("in")), ImportAction::Keep);
    assert_eq!(import_decision("in", Some("cur"), Some("ex")), ImportAction::Conflict);
    assert_eq!(import_decision("in", Some("cur"), None), ImportAction::Conflict);
}

#[test]
fn export_writes_the_dirty_issues_and_clears_the_marks() {
    let mut s = busy_store();
    let mut log = Vec::new();
    let written = s.export(&mut log);
    assert_eq!(written, vec!["A", "B", "C"]);
    assert_eq!(ids(&log), vec!["A", "B", "C"]);
    assert!(s.get_dirty_issues().is_empty());
    assert_eq!(log, s.issues);
    assert_eq!(log[0].labels, vec!["backend", "urgent"]);
    assert_eq!(log[0].dependencies, vec![dep("A", "B")]);
    assert_eq!(log[1].comments.len(), 1);
    for record in &log {
        assert_eq!(s.get_export_hash(&record.id), Some(record.compute_content_hash()));
    }
}

#[test]
fn second_export_writes_nothing() {
    let mut s = busy_store();
    let mut log = Vec::new();
    assert_eq!(s.export(&mut log).len(), 3);
    assert!(s.get_dirty_issues().is_empty());
    let snapshot = log.clone();
    let hashes = s.export_hashes.to_pairs();
    let written = s.export(&mut log);
    assert!(written.is_empty());
    assert_eq!(log, snapshot);
    assert_eq!(s.export_hashes.to_pairs(), hashes);
    assert!(s.get_dirty_issues().is_empty());
}

#[test]
fn export_skips_a_touch_without_change_of_content() {
    let mut s = busy_store();
    let mut log = Vec::new();
    s.export(&mut log);
    s.mark_dirty_at("A", NOW);
    s.update_issue_at("B", &pairs(&[("title", "Issue B")]), "bob", NOW + 50).unwrap();
    assert_eq!(s.get_dirty_issues(), vec!["A", "B"]);
    let written = s.export(&mut log);
    assert!(written.is_empty());
    assert!(s.get_dirty_issues().is_empty());
}

#[test]
fn export_replaces_the_record_of_a_changed_issue() {
    let mut s = busy_store();
    let mut log = Vec::new();
    s.export(&mut log);
    s.update_issue_at("B", &pairs(&[("title", "Renamed")]), "bob", NOW + 50).unwrap();
    let written = s.export(&mut log);
    assert_eq!(written, vec!["B"]);
    assert_eq!(ids(&log), vec!["A", "B", "C"]);
    assert_eq!(log[1].title, "Renamed");
    assert_eq!(s.get_export_hash("B"), Some(log[1].compute_content_hash()));
}

#[test]
fn export_passes_over_a_mark_of_a_deleted_issue() {
    let mut s = busy_store();
    s.mark_dirty_at("gone", NOW);
    let mut log = Vec::new();
    let written = s.export(&mut log);
    assert_eq!(written, vec!["A", "B", "C"]);
    assert!(s.get_dirty_issues().is_empty());
    assert_eq!(s.get_export_hash("gone"), None);
}

#[test]
fn round_trip_reproduces_every_issue() {
    let mut s = busy_store();
    let mut log = Vec::new();
    s.export(&mut log);
    let mut fresh = MemoryStorage::new();
    let summary = fresh.import_at(&log, "importer", NOW + 100);
    assert_eq!(summary.created, vec!["A", "B", "C"]);
    assert!(summary.updated.is_empty());
    assert!(summary.kept.is_empty());
    assert!(summary.conflicts.is_empty());
    assert_eq!(fresh.issues, s.issues);
    for source in &s.issues {
        let copy = fresh.get_issue(&source.id).unwrap();
        assert_eq!(&copy, source);
        assert_eq!(fresh.get_labels(&source.id), s.get_labels(&source.id));
        assert_eq!(fresh.get_dependency_records(&source.id), s.get_dependency_records(&source.id));
        assert_eq!(fresh.get_issue_comments(&source.id), s.get_issue_comments(&source.id));
        assert_eq!(copy.created_at, source.created_at);
        assert_eq!(copy.updated_at, source.updated_at);
        assert_eq!(copy.closed_at, source.closed_at);
    }
    assert!(fresh.get_dirty_issues().is_empty());
    assert_eq!(fresh.events.len(), 3);
    assert_eq!(fresh.events[0].event_type, EventType::Created);
    assert_eq!(fresh.events[0].actor, "importer");
}

#[test]
fn import_into_the_exporting_store_keeps_everything() {
    let mut s = busy_store();
    let mut log = Vec::new();
    s.export(&mut log);
    let before = s.clone();
    let summary = s.import_at(&log, "importer", NOW + 100);
    assert!(summary.created.is_empty());
    assert!(summary.updated.is_empty());
    assert_eq!(summary.kept, vec!["A", "B", "C"]);
    assert!(summary.conflicts.is_empty());
    assert_eq!(s.issues, before.issues);
    assert_eq!(s.events, before.events);
}

#[test]
fn import_takes_a_change_made_in_the_log() {
    let mut s = busy_store();
    let mut log = Vec::new();
    s.export(&mut log);
    log[1].title = "Edited elsewhere".to_string();
    log[1].labels.push("remote".to_string());
    let summary = s.import_at(&log, "importer", NOW + 100);
    assert_eq!(summary.updated, vec!["B"]);
    assert_eq!(summary.kept, vec!["A", "C"]);
    let b = s.get_issue("B").unwrap();
    assert_eq!(b.title, "Edited elsewhere");
    assert_eq!(b.labels, vec!["remote"]);
    assert_eq!(b.content_hash, Some(b.compute_content_hash()));
    assert_eq!(s.get_export_hash("B"), Some(b.compute_content_hash()));
    assert!(s.get_dirty_issues().is_empty());
    assert_eq!(s.events.last().unwrap().event_type, EventType::Updated);
}

#[test]
fn import_keeps_a_local_change_over_an_old_log() {
    let mut s = busy_store();
    let mut log = Vec::new();
    s.export(&mut log);
    s.update_issue_at("B", &pairs(&[("title", "Edited here")]), "bob", NOW + 50).unwrap();
    let summary = s.import_at(&log, "importer", NOW + 100);
    assert_eq!(summary.kept, vec!["A", "B", "C"]);
    assert!(summary.conflicts.is_empty());
    assert_eq!(s.get_issue("B").unwrap().title, "Edited here");
    assert_eq!(s.get_dirty_issues(), vec!["B"]);
}

#[test]
fn import_reports_a_three_way_divergence() {
    let mut s = busy_store();
    let mut log = Vec::new();
    s.export(&mut log);
    s.update_issue_at("B", &pairs(&[("title", "Edited here")]), "bob", NOW + 50).unwrap();
    log[1].title = "Edited elsewhere".to_string();
    let before = s.clone();
    let summary = s.import_at(&log, "importer", NOW + 100);
    assert_eq!(summary.kept, vec!["A", "C"]);
    assert_eq!(summary.conflicts.len(), 1);
    assert_eq!(summary.conflicts[0].stored.title, "Edited here");
    assert_eq!(summary.conflicts[0].incoming.title, "Edited elsewhere");
    assert_eq!(summary.conflicts[0].stored, before.get_issue("B").unwrap());
    assert_eq!(summary.conflicts[0].incoming, log[1]);
    assert_eq!(s.issues, before.issues);
    assert_eq!(s.events, before.events);
    assert_eq!(s.export_hashes.to_pairs(), before.export_hashes.to_pairs());
}

#[test]
fn import_of_an_issue_never_exported_that_differs_is_a_conflict() {
    let mut s = MemoryStorage::new();
    s.create_issue_at(&issue("A"), "alice", NOW).unwrap();
    let mut incoming = issue("A");
    incoming.title = "Another A".to_string();
    let summary = s.import_at(&vec![incoming], "importer", NOW);
    assert_eq!(summary.conflicts.len(), 1);
    assert_eq!(s.get_issue("A").unwrap().title, "Issue A");
}

#[test]
fn import_of_a_log_with_a_repeated_id() {
    let mut fresh = MemoryStorage::new();
    let mut second = issue("A");
    second.title = "Second".to_string();
    let summary = fresh.import_at(&vec![issue("A"), second, issue("A")], "importer", NOW);
    // The first record is created; each later one finds the store as the
    // record before it left it, and replaces it.
    assert_eq!(summary.created, vec!["A"]);
    assert_eq!(summary.updated, vec!["A", "A"]);
    assert!(summary.conflicts.is_empty());
    assert_eq!(fresh.issues.len(), 1);
    assert_eq!(fresh.get_issue("A").unwrap().title, "Issue A");
}

#[test]
fn import_with_the_clock() {
    let mut fresh = MemoryStorage::new();
    let summary = fresh.import(&vec![issue("A")], "importer");
    assert_eq!(summary.created, vec!["A"]);
    assert!(fresh.events[0].created_at > 1_577_836_800_000_000);
}

#[test]
fn records_are_put_by_id() {
    let mut log = vec![issue("A"), issue("B")];
    let mut b = issue("B");
    b.title = "new".to_string();
    put_record(&mut log, b);
    put_record(&mut log, issue("C"));
    assert_eq!(ids(&log), vec!["A", "B", "C"]);
    assert_eq!(log[1].title, "new");
    assert_eq!(position_of(&log, &"C".to_string()), Some(2));
    assert_eq!(position_of(&log, &"D".to_string()), None);
    log.push(issue("A"));
    assert_eq!(position_of(&log, &"A".to_string()), Some(0));
}

#[test]
fn sealing_the_log_detects_a_change() {
    let mut s = MemoryStorage::new();
    let bytes = b"{\"id\":\"A\"}\n".to_vec();
    assert!(!s.log_is_sealed(&bytes));
    s.seal_log(&bytes);
    assert_eq!(s.get_jsonl_file_hash(), Some(sha256_hex(&bytes)));
    assert!(s.log_is_sealed(&bytes));
    let tampered = b"{\"id\":\"B\"}\n".to_vec();
    assert!(!s.log_is_sealed(&tampered));
    s.seal_log(&tampered);
    assert!(s.log_is_sealed(&tampered));
    assert!(!s.log_is_sealed(&bytes));
}

#[test]
fn label_only_change_is_not_exported_again() {
    // The content hash leaves labels out: a change of labels alone marks
    // the issue dirty, and the export passes it over.
    let mut s = busy_store();
    let mut log = Vec::new();
    s.export(&mut log);
    s.add_label_at("B", "late", "bob", NOW + 50).unwrap();
    assert_eq!(s.get_dirty_issues(), vec!["B"]);
    assert!(s.export(&mut log).is_empty());
    assert!(log[1].labels.is_empty());
}

#[test]
fn import_refuses_a_record_that_is_not_acceptable() {
    let mut fresh = MemoryStorage::new();
    let mut bad = issue("bad");
    bad.title = String::new();
    let mut worse = issue("worse");
    worse.status = Status::Closed;
    let summary = fresh.import_at(&vec![issue("A"), bad, worse, issue("B")], "importer", NOW);
    assert_eq!(summary.created, vec!["A", "B"]);
    assert_eq!(
        summary.rejected,
        vec![
            ("bad".to_string(), "title is required".to_string()),
            ("worse".to_string(), "closed issues must have closed_at timestamp".to_string()),
        ]
    );
    assert_eq!(ids(&fresh.issues), vec!["A", "B"]);
    assert_eq!(fresh.events.len(), 2);
    assert_eq!(fresh.get_export_hash("bad"), None);
}

#[test]
fn store_stays_consistent_through_its_operations() {
    let mut s = busy_store();
    let mut log = Vec::new();
    s.export(&mut log);
    s.update_issue_at("A", &pairs(&[("status", "in_progress"), ("priority", "1")]), "bob", NOW + 60)
        .unwrap();
    s.delete_issue("B").unwrap();
    s.import_at(&log, "importer", NOW + 70);
    let mut seen = std::collections::HashSet::new();
    for i in &s.issues {
        assert!(seen.insert(i.id.clone()));
        assert_eq!(i.validate(), Ok(()));
        assert_eq!(i.content_hash, Some(i.compute_content_hash()));
    }
    let dirty = s.get_dirty_issues();
    let unique: std::collections::HashSet<_> = dirty.iter().collect();
    assert_eq!(unique.len(), dirty.len());
}

#[test]
fn import_refuses_a_record_whose_external_reference_is_taken() {
    let mut s = MemoryStorage::new();
    let mut a = issue("A");
    a.external_ref = Some("GH-1".to_string());
    s.create_issue_at(&a, "alice", NOW).unwrap();
    let mut b = issue("B");
    b.external_ref = Some("GH-1".to_string());
    let summary = s.import_at(&vec![b, issue("C")], "importer", NOW);
    assert_eq!(summary.created, vec!["C"]);
    assert_eq!(
        summary.rejected,
        vec![("B".to_string(), "external reference is taken: GH-1".to_string())]
    );
    assert_eq!(ids(&s.issues), vec!["A", "C"]);
}

fn comment(id: i64, issue_id: &str) -> Comment {
    Comment {
        id,
        issue_id: issue_id.to_string(),
        author: "eve".to_string(),
        text: format!("comment {}", id),
        created_at: NOW,
    }
}

#[test]
fn comment_after_an_import_gets_a_new_id() {
    let mut fresh = MemoryStorage::new();
    let mut a = issue("A");
    a.comments = vec![comment(1, "A"), comment(7, "A")];
    let summary = fresh.import_at(&vec![a], "importer", NOW);
    assert_eq!(summary.created, vec!["A"]);
    assert_eq!(fresh.next_comment_id, 8);
    let added = fresh.add_issue_comment_at("A", "bob", "new", NOW + 1).unwrap();
    assert_eq!(added.id, 8);
    let ids: Vec<i64> = fresh.get_issue_comments("A").iter().map(|c| c.id).collect();
    assert_eq!(ids, vec![1, 7, 8]);
}

#[test]
fn import_of_a_changed_record_moves_the_counter_too() {
    let mut s = busy_store();
    let mut log = Vec::new();
    s.export(&mut log);
    log[0].title = "Edited elsewhere".to_string();
    log[0].comments.push(comment(40, "A"));
    let summary = s.import_at(&log, "importer", NOW + 100);
    assert_eq!(summary.updated, vec!["A"]);
    assert_eq!(s.next_comment_id, 41);
    assert_eq!(s.add_issue_comment_at("B", "bob", "next", NOW).unwrap().id, 41);
}

#[test]
fn import_never_moves_the_counter_back() {
    let mut s = busy_store();
    let mut a = issue("Z");
    a.comments = vec![comment(-5, "Z")];
    let before = s.next_comment_id;
    s.import_at(&vec![a], "importer", NOW);
    assert_eq!(s.next_comment_id, before);
}

#[test]
fn imported_record_takes_the_place_of_loose_edges() {
    let mut s = MemoryStorage::new();
    s.add_dependency_at(&dep("A", "B"), "bob", NOW).unwrap();
    s.add_dependency_at(&dep("Z", "A"), "bob", NOW).unwrap();
    let mut a = issue("A");
    a.dependencies = vec![dep("A", "C")];
    let summary = s.import_at(&vec![a], "importer", NOW + 1);
    assert_eq!(summary.created, vec!["A"]);
    assert_eq!(s.get_dependency_records("A"), vec![dep("A", "C")]);
    assert_eq!(s.loose_dependencies(), vec![dep("Z", "A")]);
}

#[test]
fn export_passes_over_a_mark_of_a_loose_edge() {
    let mut s = busy_store();
    let mut log = Vec::new();
    s.export(&mut log);
    s.add_dependency_at(&dep("nobody", "A"), "bob", NOW).unwrap();
    assert!(s.is_dirty("nobody"));
    let before = log.clone();
    assert!(s.export(&mut log).is_empty());
    assert_eq!(log, before);
    assert!(s.get_dirty_issues().is_empty());
    assert_eq!(s.loose_dependencies(), vec![dep("nobody", "A")]);
}
