use bd::cycles::detect_cycles;
use bd::types::{Dependency, DependencyType, Issue, IssueType, Status};

fn issue(id: &str) -> Issue {
    Issue {
        id: id.to_string(),
        content_hash: None,
        title: format!("Issue {}", id),
        description: String::new(),
        design: String::new(),
        acceptance_criteria: String::new(),
        notes: String::new(),
        status: Status::Open,
        priority: 2,
        issue_type: IssueType::Task,
        assignee: String::new(),
        estimated_minutes: None,
        created_at: 1_700_000_000_000_000,
        updated_at: 1_700_000_000_000_000,
        closed_at: None,
        external_ref: None,
        compaction_level: 0,
        compacted_at: None,
        compacted_at_commit: None,
        original_size: 0,
        source_repo: String::new(),
        labels: Vec::new(),
        dependencies: Vec::new(),
        comments: Vec::new(),
    }
}

fn dep(from: &str, to: &str, dep_type: DependencyType) -> Dependency {
    Dependency {
        issue_id: from.to_string(),
        depends_on_id: to.to_string(),
        dep_type,
        created_at: 1_700_000_000_000_000,
        created_by: "tester".to_string(),
    }
}

fn ids(cycle: &Vec<Issue>) -> Vec<String> {
    cycle.iter().map(|i| i.id.clone()).collect()
}

fn rotated_to(mut cycle: Vec<String>, first: &str) -> Vec<String> {
    if let Some(at) = cycle.iter().position(|i| i == first) {
        cycle.rotate_left(at);
    }
    cycle
}

#[test]
fn three_issue_cycle_is_reported_once() {
    let issues = vec![issue("A"), issue("B"), issue("C")];
    let deps = vec![
        dep("A", "B", DependencyType::Blocks),
        dep("B", "C", DependencyType::Blocks),
        dep("C", "A", DependencyType::Blocks),
    ];
    let cycles = detect_cycles(&issues, &deps);
    assert_eq!(cycles.len(), 1);
    assert_eq!(rotated_to(ids(&cycles[0]), "A"), vec!["A", "B", "C"]);
}

#[test]
fn reported_cycle_follows_its_edges() {
    let issues = vec![issue("A"), issue("B"), issue("C")];
    let deps = vec![
        dep("C", "A", DependencyType::Blocks),
        dep("A", "B", DependencyType::ParentChild),
        dep("B", "C", DependencyType::Blocks),
    ];
    let cycles = detect_cycles(&issues, &deps);
    assert_eq!(cycles.len(), 1);
    let cycle = ids(&cycles[0]);
    for k in 0..cycle.len() {
        let from = &cycle[k];
        let to = &cycle[(k + 1) % cycle.len()];
        assert!(deps.iter().any(|d| &d.issue_id == from && &d.depends_on_id == to));
    }
}

#[test]
fn self_loop_is_reported() {
    let issues = vec![issue("A"), issue("B")];
    let deps = vec![dep("A", "B", DependencyType::Blocks), dep("B", "B", DependencyType::ParentChild)];
    let cycles = detect_cycles(&issues, &deps);
    assert_eq!(cycles.len(), 1);
    assert_eq!(ids(&cycles[0]), vec!["B"]);
}

#[test]
fn self_loop_on_a_cycle_is_reported_too() {
    let issues = vec![issue("A"), issue("B")];
    let deps = vec![
        dep("A", "A", DependencyType::Blocks),
        dep("A", "B", DependencyType::Blocks),
        dep("B", "A", DependencyType::Blocks),
    ];
    let cycles = detect_cycles(&issues, &deps);
    assert_eq!(cycles.len(), 2);
    assert!(cycles.iter().any(|c| ids(c) == vec!["A"]));
    assert!(cycles.iter().any(|c| rotated_to(ids(c), "A") == vec!["A", "B"]));
}

#[test]
fn acyclic_graph_reports_nothing() {
    let issues = vec![issue("A"), issue("B"), issue("C"), issue("D")];
    let deps = vec![
        dep("A", "B", DependencyType::Blocks),
        dep("A", "C", DependencyType::Blocks),
        dep("B", "D", DependencyType::ParentChild),
        dep("C", "D", DependencyType::ParentChild),
    ];
    assert!(detect_cycles(&issues, &deps).is_empty());
}

#[test]
fn empty_snapshot_reports_nothing() {
    assert!(detect_cycles(&Vec::new(), &Vec::new()).is_empty());
}

#[test]
fn informational_edges_make_no_cycle() {
    let issues = vec![issue("A"), issue("B")];
    let deps = vec![
        dep("A", "B", DependencyType::Related),
        dep("B", "A", DependencyType::Related),
        dep("A", "A", DependencyType::DiscoveredFrom),
        dep("A", "B", DependencyType::Blocks),
    ];
    assert!(detect_cycles(&issues, &deps).is_empty());
}

#[test]
fn dangling_edges_make_no_cycle() {
    let issues = vec![issue("A")];
    let deps = vec![dep("A", "ghost", DependencyType::Blocks), dep("ghost", "A", DependencyType::Blocks)];
    assert!(detect_cycles(&issues, &deps).is_empty());
}

#[test]
fn two_separate_cycles_are_both_reported() {
    let issues = vec![issue("A"), issue("B"), issue("C"), issue("D"), issue("E")];
    let deps = vec![
        dep("A", "B", DependencyType::Blocks),
        dep("B", "A", DependencyType::Blocks),
        dep("C", "D", DependencyType::Blocks),
        dep("D", "E", DependencyType::Blocks),
        dep("E", "C", DependencyType::Blocks),
    ];
    let cycles = detect_cycles(&issues, &deps);
    assert_eq!(cycles.len(), 2);
    assert!(cycles.iter().any(|c| rotated_to(ids(c), "A") == vec!["A", "B"]));
    assert!(cycles.iter().any(|c| rotated_to(ids(c), "C") == vec!["C", "D", "E"]));
}

#[test]
fn reported_issues_are_those_of_the_snapshot() {
    let mut a = issue("A");
    a.title = "Alpha".to_string();
    let mut b = issue("B");
    b.priority = 0;
    let issues = vec![a.clone(), b.clone()];
    let deps = vec![dep("A", "B", DependencyType::Blocks), dep("B", "A", DependencyType::Blocks)];
    let cycles = detect_cycles(&issues, &deps);
    assert_eq!(cycles.len(), 1);
    for found in &cycles[0] {
        if found.id == "A" {
            assert_eq!(found, &a);
        } else {
            assert_eq!(found, &b);
        }
    }
}

#[test]
fn long_chain_is_searched_without_deep_recursion() {
    let n = 100_000;
    let mut issues = Vec::new();
    let mut deps = Vec::new();
    for i in 0..n {
        issues.push(issue(&format!("bd-{}", i)));
        if i > 0 {
            deps.push(dep(&format!("bd-{}", i - 1), &format!("bd-{}", i), DependencyType::Blocks));
        }
    }
    assert!(detect_cycles(&issues, &deps).is_empty());
    deps.push(dep(&format!("bd-{}", n - 1), "bd-0", DependencyType::Blocks));
    let cycles = detect_cycles(&issues, &deps);
    assert_eq!(cycles.len(), 1);
    assert_eq!(cycles[0].len(), n);
}

#[test]
fn repeated_edge_reports_its_cycle_once() {
    let issues = vec![issue("A"), issue("B")];
    let deps = vec![
        dep("A", "B", DependencyType::Blocks),
        dep("B", "A", DependencyType::Blocks),
        dep("B", "A", DependencyType::ParentChild),
        dep("A", "B", DependencyType::ParentChild),
    ];
    let cycles = detect_cycles(&issues, &deps);
    assert_eq!(cycles.len(), 1);
    assert_eq!(rotated_to(ids(&cycles[0]), "A"), vec!["A".to_string(), "B".to_string()]);
}

#[test]
fn repeated_self_loop_is_reported_once() {
    let issues = vec![issue("A")];
    let deps = vec![
        dep("A", "A", DependencyType::Blocks),
        dep("A", "A", DependencyType::Blocks),
        dep("A", "A", DependencyType::ParentChild),
    ];
    let cycles = detect_cycles(&issues, &deps);
    assert_eq!(cycles.len(), 1);
    assert_eq!(ids(&cycles[0]), vec!["A".to_string()]);
}

#[test]
fn no_two_reported_cycles_hold_the_same_issues() {
    let issues = vec![issue("A"), issue("B"), issue("C"), issue("D")];
    let deps = vec![
        dep("A", "B", DependencyType::Blocks),
        dep("B", "C", DependencyType::Blocks),
        dep("C", "A", DependencyType::Blocks),
        dep("C", "A", DependencyType::ParentChild),
        dep("B", "A", DependencyType::Blocks),
        dep("C", "D", DependencyType::Blocks),
        dep("D", "C", DependencyType::Blocks),
        dep("D", "D", DependencyType::Blocks),
    ];
    let cycles = detect_cycles(&issues, &deps);
    let mut sets: Vec<Vec<String>> = cycles.iter().map(|c| {
        let mut s = ids(c);
        s.sort();
        s
    }).collect();
    let n = sets.len();
    sets.sort();
    sets.dedup();
    assert_eq!(sets.len(), n);
    assert!(sets.contains(&vec!["A".to_string(), "B".to_string(), "C".to_string()]));
    assert!(sets.contains(&vec!["D".to_string()]));
}
