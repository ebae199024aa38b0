use bd::hash::sha256_hex;
use bd::text::{decimal_string, natural_string, to_hex_lower};
use bd::types::{Issue, IssueType, Status};

fn issue(id: &str) -> Issue {
    Issue {
        id: id.to_string(),
        content_hash: None,
        title: "T".to_string(),
        description: String::new(),
        design: String::new(),
        acceptance_criteria: String::new(),
        notes: String::new(),
        status: Status::Open,
        priority: 2,
        issue_type: IssueType::Task,
        assignee: String::new(),
        estimated_minutes: None,
        created_at: 1_700_000_000_000_000,
        updated_at: 1_700_000_000_000_000,
        closed_at: None,
        external_ref: None,
        compaction_level: 0,
        compacted_at: None,
        compacted_at_commit: None,
        original_size: 0,
        source_repo: String::new(),
        labels: Vec::new(),
        dependencies: Vec::new(),
        comments: Vec::new(),
    }
}

#[test]
fn digest_of_known_inputs() {
    assert_eq!(
        sha256_hex(&Vec::new()),
        "e3b0c44298fc1c149afbf4c8996fb92427ae41e4649b934ca495991b7852b855"
    );
    assert_eq!(
        sha256_hex(&b"abc".to_vec()),
        "ba7816bf8f01cfea414140de5dae2223b00361a396177a9cb410ff61f20015ad"
    );
}

#[test]
fn content_hash_has_the_known_value() {
    let a = issue("A");
    assert_eq!(
        a.compute_content_hash(),
        "900e9b0d8de845c491ea5b49ced295f51837b35d6c8f411556a8fa9371baf035"
    );
}

#[test]
fn content_hash_covers_every_substantive_field() {
    let mut a = issue("A");
    a.title = "Fix login".to_string();
    a.description = "Users cannot log in".to_string();
    a.status = Status::InProgress;
    a.priority = 0;
    a.issue_type = IssueType::Bug;
    a.assignee = "alice".to_string();
    a.external_ref = Some("JIRA-7".to_string());
    assert_eq!(
        a.compute_content_hash(),
        "fe929bacbe1a5f51da58c46f86cd803303991a522f3880773a991269ef2febd0"
    );
}

#[test]
fn content_hash_of_text_beyond_ascii() {
    let mut a = issue("A");
    a.title = "Ünï".to_string();
    a.status = Status::Closed;
    a.closed_at = Some(1);
    a.priority = 4;
    a.issue_type = IssueType::Epic;
    assert_eq!(
        a.compute_content_hash(),
        "ee7ed8e7f728ac54836deb6eb940ac6e6ae31390d87ce3f046066bceaaec909c"
    );
}

#[test]
fn content_hash_ignores_identity_time_and_attachments() {
    let a = issue("A");
    let mut b = issue("B");
    b.created_at = 5;
    b.updated_at = 6;
    b.content_hash = Some("stale".to_string());
    b.estimated_minutes = Some(30);
    b.compaction_level = 2;
    b.compacted_at = Some(9);
    b.compacted_at_commit = Some("abc".to_string());
    b.original_size = 100;
    b.source_repo = "elsewhere".to_string();
    b.labels.push("x".to_string());
    assert_eq!(a.compute_content_hash(), b.compute_content_hash());
}

#[test]
fn content_hash_changes_with_each_substantive_field() {
    let base = issue("A").compute_content_hash();
    let mut changed = Vec::new();
    let mut i = issue("A");
    i.title = "U".to_string();
    changed.push(i.compute_content_hash());
    let mut i = issue("A");
    i.description = "d".to_string();
    changed.push(i.compute_content_hash());
    let mut i = issue("A");
    i.design = "d".to_string();
    changed.push(i.compute_content_hash());
    let mut i = issue("A");
    i.acceptance_criteria = "d".to_string();
    changed.push(i.compute_content_hash());
    let mut i = issue("A");
    i.notes = "d".to_string();
    changed.push(i.compute_content_hash());
    let mut i = issue("A");
    i.status = Status::Blocked;
    changed.push(i.compute_content_hash());
    let mut i = issue("A");
    i.priority = 3;
    changed.push(i.compute_content_hash());
    let mut i = issue("A");
    i.issue_type = IssueType::Chore;
    changed.push(i.compute_content_hash());
    let mut i = issue("A");
    i.assignee = "d".to_string();
    changed.push(i.compute_content_hash());
    let mut i = issue("A");
    i.external_ref = Some("d".to_string());
    changed.push(i.compute_content_hash());
    for (k, h) in changed.iter().enumerate() {
        assert_ne!(h, &base);
        for other in &changed[k + 1..] {
            assert_ne!(h, other);
        }
    }
}

#[test]
fn content_hash_is_the_same_each_time() {
    let a = issue("A");
    assert_eq!(a.compute_content_hash(), a.compute_content_hash());
    assert_eq!(a.clone().compute_content_hash(), a.compute_content_hash());
}

#[test]
fn hexadecimal_notation() {
    assert_eq!(to_hex_lower(&vec![]), "");
    assert_eq!(to_hex_lower(&vec![0x00, 0x0f, 0xa0, 0xff, 0x10]), "000fa0ff10");
    assert_eq!(to_hex_lower(&vec![0xde, 0xad, 0xbe, 0xef]), "deadbeef");
}

#[test]
fn decimal_notation() {
    assert_eq!(decimal_string(0), "0");
    assert_eq!(decimal_string(7), "7");
    assert_eq!(decimal_string(10), "10");
    assert_eq!(decimal_string(-1), "-1");
    assert_eq!(decimal_string(-120), "-120");
    assert_eq!(decimal_string(i64::MAX), "9223372036854775807");
    assert_eq!(decimal_string(i64::MIN), "-9223372036854775808");
    assert_eq!(natural_string(0), "0");
    assert_eq!(natural_string(501), "501");
    assert_eq!(natural_string(u64::MAX), "18446744073709551615");
}
