use bd::counts::dependency_counts;
use bd::tree::dependency_tree;
use bd::types::{Dependency, DependencyType, Issue, IssueType, Status, TreeNode};

fn issue(id: &str) -> Issue {
    Issue {
        id: id.to_string(),
        content_hash: None,
        title: format!("Issue {}", id),
        description: String::new(),
        design: String::new(),
        acceptance_criteria: String::new(),
        notes: String::new(),
        status: Status::Open,
        priority: 2,
        issue_type: IssueType::Task,
        assignee: String::new(),
        estimated_minutes: None,
        created_at: 1,
        updated_at: 1,
        closed_at: None,
        external_ref: None,
        compaction_level: 0,
        compacted_at: None,
        compacted_at_commit: None,
        original_size: 0,
        source_repo: String::new(),
        labels: Vec::new(),
        dependencies: Vec::new(),
        comments: Vec::new(),
    }
}

fn dep(from: &str, to: &str, dep_type: DependencyType) -> Dependency {
    Dependency {
        issue_id: from.to_string(),
        depends_on_id: to.to_string(),
        dep_type,
        created_at: 1,
        created_by: "tester".to_string(),
    }
}

/// Each node as (id, depth, parent, truncated).
fn shape(tree: &Vec<TreeNode>) -> Vec<(String, i32, String, bool)> {
    tree.iter().map(|n| (n.issue.id.clone(), n.depth, n.parent_id.clone(), n.truncated)).collect()
}

fn node(id: &str, depth: i32, parent: &str, truncated: bool) -> (String, i32, String, bool) {
    (id.to_string(), depth, parent.to_string(), truncated)
}

fn diamond_with_back_edge() -> (Vec<Issue>, Vec<Dependency>) {
    let issues = vec![issue("R"), issue("A"), issue("B"), issue("C")];
    let deps = vec![
        dep("R", "A", DependencyType::Blocks),
        dep("R", "B", DependencyType::Blocks),
        dep("A", "C", DependencyType::Blocks),
        dep("B", "C", DependencyType::Related),
        dep("C", "R", DependencyType::DiscoveredFrom),
    ];
    (issues, deps)
}

#[test]
fn tree_with_each_issue_once() {
    let (issues, deps) = diamond_with_back_edge();
    let tree = dependency_tree(&issues, &deps, "R", 0, false, false);
    assert_eq!(
        shape(&tree),
        vec![node("R", 0, "", false), node("A", 1, "R", false), node("C", 2, "A", false), node("B", 1, "R", false)]
    );
}

#[test]
fn tree_with_all_paths_truncates_at_the_cycle() {
    let (issues, deps) = diamond_with_back_edge();
    let tree = dependency_tree(&issues, &deps, "R", 0, true, false);
    assert_eq!(
        shape(&tree),
        vec![
            node("R", 0, "", false),
            node("A", 1, "R", false),
            node("C", 2, "A", false),
            node("R", 3, "C", true),
            node("B", 1, "R", false),
            node("C", 2, "B", false),
            node("R", 3, "C", true),
        ]
    );
}

#[test]
fn tree_with_depth_limit_lists_truncated_leaves() {
    let (issues, deps) = diamond_with_back_edge();
    let tree = dependency_tree(&issues, &deps, "R", 1, true, false);
    assert_eq!(
        shape(&tree),
        vec![
            node("R", 0, "", false),
            node("A", 1, "R", false),
            node("C", 2, "A", true),
            node("B", 1, "R", false),
            node("C", 2, "B", true),
        ]
    );
    let once = dependency_tree(&issues, &deps, "R", 1, false, false);
    assert_eq!(
        shape(&once),
        vec![
            node("R", 0, "", false),
            node("A", 1, "R", false),
            node("C", 2, "A", true),
            node("B", 1, "R", false),
        ]
    );
}

#[test]
fn tree_in_reverse() {
    let (issues, deps) = diamond_with_back_edge();
    let tree = dependency_tree(&issues, &deps, "C", 0, false, true);
    assert_eq!(
        shape(&tree),
        vec![node("C", 0, "", false), node("A", 1, "C", false), node("R", 2, "A", false), node("B", 1, "C", false)]
    );
}

#[test]
fn tree_of_an_unknown_root_is_empty() {
    let (issues, deps) = diamond_with_back_edge();
    assert!(dependency_tree(&issues, &deps, "nope", 0, true, false).is_empty());
}

#[test]
fn tree_of_a_leaf_is_the_leaf() {
    let issues = vec![issue("A")];
    let deps = vec![dep("A", "gone", DependencyType::Blocks)];
    let tree = dependency_tree(&issues, &deps, "A", 0, true, false);
    assert_eq!(shape(&tree), vec![node("A", 0, "", false)]);
    assert_eq!(tree[0].issue, issues[0]);
}

#[test]
fn tree_with_a_self_loop() {
    let issues = vec![issue("A")];
    let deps = vec![dep("A", "A", DependencyType::Blocks)];
    let all = dependency_tree(&issues, &deps, "A", 0, true, false);
    assert_eq!(shape(&all), vec![node("A", 0, "", false), node("A", 1, "A", true)]);
    let once = dependency_tree(&issues, &deps, "A", 0, false, false);
    assert_eq!(shape(&once), vec![node("A", 0, "", false)]);
}

#[test]
fn tree_children_come_in_edge_order() {
    let issues = vec![issue("R"), issue("x"), issue("y"), issue("z")];
    let deps = vec![
        dep("R", "z", DependencyType::Blocks),
        dep("R", "x", DependencyType::Blocks),
        dep("R", "y", DependencyType::Blocks),
    ];
    let tree = dependency_tree(&issues, &deps, "R", 0, false, false);
    assert_eq!(
        shape(&tree),
        vec![node("R", 0, "", false), node("z", 1, "R", false), node("x", 1, "R", false), node("y", 1, "R", false)]
    );
}

#[test]
fn tree_all_paths_lists_a_shared_subtree_twice() {
    let issues = vec![issue("R"), issue("A"), issue("B"), issue("S"), issue("T")];
    let deps = vec![
        dep("R", "A", DependencyType::Blocks),
        dep("R", "B", DependencyType::Blocks),
        dep("A", "S", DependencyType::Blocks),
        dep("B", "S", DependencyType::Blocks),
        dep("S", "T", DependencyType::Blocks),
    ];
    let tree = dependency_tree(&issues, &deps, "R", 0, true, false);
    assert_eq!(
        shape(&tree),
        vec![
            node("R", 0, "", false),
            node("A", 1, "R", false),
            node("S", 2, "A", false),
            node("T", 3, "S", false),
            node("B", 1, "R", false),
            node("S", 2, "B", false),
            node("T", 3, "S", false),
        ]
    );
}

#[test]
fn counts_of_outgoing_and_incoming_edges() {
    let deps = vec![
        dep("A", "B", DependencyType::Blocks),
        dep("A", "C", DependencyType::ParentChild),
        dep("A", "D", DependencyType::Related),
        dep("B", "C", DependencyType::Blocks),
        dep("C", "A", DependencyType::DiscoveredFrom),
        dep("D", "A", DependencyType::Blocks),
    ];
    let ids = vec!["A".to_string(), "B".to_string(), "C".to_string(), "Z".to_string()];
    let counts = dependency_counts(&ids, &deps);
    assert_eq!(counts.len(), 4);
    let a = counts.get("A").unwrap();
    assert_eq!((a.dependency_count, a.dependent_count), (2, 1));
    let b = counts.get("B").unwrap();
    assert_eq!((b.dependency_count, b.dependent_count), (1, 1));
    let c = counts.get("C").unwrap();
    assert_eq!((c.dependency_count, c.dependent_count), (0, 2));
    let z = counts.get("Z").unwrap();
    assert_eq!((z.dependency_count, z.dependent_count), (0, 0));
    assert!(counts.get("D").is_none());
}

#[test]
fn counts_with_a_repeated_id() {
    let deps = vec![dep("A", "A", DependencyType::Blocks)];
    let ids = vec!["A".to_string(), "A".to_string()];
    let counts = dependency_counts(&ids, &deps);
    assert_eq!(counts.len(), 1);
    let a = counts.get("A").unwrap();
    assert_eq!((a.dependency_count, a.dependent_count), (1, 1));
}

#[test]
fn counts_of_nothing() {
    let counts = dependency_counts(&vec![], &vec![dep("A", "B", DependencyType::Blocks)]);
    assert!(counts.is_empty());
}

#[test]
fn tree_of_a_long_chain_is_walked_without_deep_recursion() {
    let n = 100_000;
    let mut issues = Vec::new();
    let mut deps = Vec::new();
    for i in 0..n {
        issues.push(issue(&format!("bd-{}", i)));
        if i > 0 {
            deps.push(dep(&format!("bd-{}", i - 1), &format!("bd-{}", i), DependencyType::Blocks));
        }
    }
    deps.push(dep(&format!("bd-{}", n - 1), "bd-0", DependencyType::Related));
    let once = dependency_tree(&issues, &deps, "bd-0", 0, false, false);
    assert_eq!(once.len(), n);
    assert_eq!(once[n - 1].depth, (n - 1) as i32);
    assert_eq!(once[n - 1].parent_id, format!("bd-{}", n - 2));
    let all = dependency_tree(&issues, &deps, "bd-0", 0, true, false);
    assert_eq!(all.len(), n + 1);
    assert!(all[n].truncated);
    assert_eq!(all[n].issue.id, "bd-0");
    assert_eq!(all[n].depth, n as i32);
    let limited = dependency_tree(&issues, &deps, "bd-0", 10, true, false);
    assert_eq!(limited.len(), 12);
    assert!(limited[11].truncated);
    assert!(!limited[10].truncated);
}
