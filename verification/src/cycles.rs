//! Cycle detection over the edges that order work.

use vstd::prelude::*;
use crate::graph::{
    build_adjacency, children, EdgeKind, edge_leaves, is_adjacency, lemma_children_complete,
    lemma_children_sound,
};
use crate::index::{
    build_index, first_index, has_issue, is_first_index, lemma_first_index_exists,
    lemma_first_index_unique,
};
use crate::depth_first::{
    arcs_settled, circuits_ok, distinct_rows, find_cycles, graph_ok, holds, is_arc, is_circuit,
    lemma_circuit_closed, members_differ, next_at, reported, rows, same_members,
};
use crate::types::{Dependency, DependencyView, Issue, IssueView};

verus! {

/// Whether `d` is an edge that orders work and says that `a` depends on `b`.
pub open spec fn is_ordering_edge(d: DependencyView, a: Seq<char>, b: Seq<char>) -> bool {
    d.dep_type.spec_is_ordering() && d.issue_id == a && d.depends_on_id == b
}

/// Whether issue `a` depends on issue `b`: both are issues of the snapshot
/// and an edge of type `blocks` or `parent-child` leads from `a` to `b`.
pub open spec fn depends_on(
    issues: Seq<IssueView>,
    deps: Seq<DependencyView>,
    a: Seq<char>,
    b: Seq<char>,
) -> bool {
    &&& has_issue(issues, a)
    &&& has_issue(issues, b)
    &&& exists|k: int| 0 <= k < deps.len() && is_ordering_edge(#[trigger] deps[k], a, b)
}

/// The id that follows the `i`-th on a cycle; the first follows the last.
pub open spec fn next_on(c: Seq<Seq<char>>, i: int) -> Seq<char> {
    if i + 1 < c.len() {
        c[i + 1]
    } else {
        c[0]
    }
}

/// Whether a list of ids is a cycle: each issue depends on the next one,
/// and the last one on the first. A single issue that depends on itself is
/// a cycle of length one.
pub open spec fn is_cycle(issues: Seq<IssueView>, deps: Seq<DependencyView>, c: Seq<Seq<char>>) -> bool {
    &&& c.len() >= 1
    &&& forall|i: int| 0 <= i < c.len() ==> depends_on(issues, deps, c[i], #[trigger] next_on(c, i))
}

/// Whether the snapshot has no cycle.
pub open spec fn acyclic(issues: Seq<IssueView>, deps: Seq<DependencyView>) -> bool {
    forall|c: Seq<Seq<char>>| !#[trigger] is_cycle(issues, deps, c)
}

/// The ids of a list of issues.
pub open spec fn ids_of(l: Seq<IssueView>) -> Seq<Seq<char>> {
    Seq::new(l.len(), |i: int| l[i].id)
}

/// Whether a list of issues is a cycle as it is reported: its ids form a
/// cycle, none occurs twice, and each entry is the issue of the snapshot
/// that stands for its id.
pub open spec fn is_reported_cycle(
    issues: Seq<IssueView>,
    deps: Seq<DependencyView>,
    l: Seq<IssueView>,
) -> bool {
    &&& is_cycle(issues, deps, ids_of(l))
    &&& ids_of(l).no_duplicates()
    &&& forall|i: int|
        0 <= i < l.len() ==> is_first_index(
            issues,
            (#[trigger] l[i]).id,
            first_index(issues, l[i].id),
        ) && issues[first_index(issues, l[i].id)] == l[i]
}

/// Whether a reported cycle is closed by the edge from `from` to `to`: it
/// starts at `to` and ends at `from`.
pub open spec fn closes_edge(l: Seq<IssueView>, from: Seq<char>, to: Seq<char>) -> bool {
    l.len() >= 1 && l[0].id == to && l[l.len() - 1].id == from
}

/// Whether some edge of the cycle `c` closes a reported cycle.
pub open spec fn some_edge_closed(report: Seq<Seq<IssueView>>, c: Seq<Seq<char>>) -> bool {
    exists|i: int, k: int|
        #![trigger report[k], c[i]]
        0 <= i < c.len() && 0 <= k < report.len() && closes_edge(report[k], c[i], next_on(c, i))
}

/// Whether a list of issues holds one with the given id.
pub open spec fn has_id(l: Seq<IssueView>, id: Seq<char>) -> bool {
    exists|i: int| 0 <= i < l.len() && (#[trigger] l[i]).id == id
}

/// Whether two lists hold the same issues, in whatever order.
pub open spec fn same_issues(a: Seq<IssueView>, b: Seq<IssueView>) -> bool {
    &&& forall|i: int| 0 <= i < a.len() ==> has_id(b, (#[trigger] a[i]).id)
    &&& forall|j: int| 0 <= j < b.len() ==> has_id(a, (#[trigger] b[j]).id)
}

/// Whether `b` is `a` begun at another of its issues: the end of `a` from
/// some position on, followed by its start.
pub open spec fn is_rotation(a: Seq<IssueView>, b: Seq<IssueView>) -> bool {
    exists|r: int|
        0 <= r <= a.len() && b == #[trigger] a.subrange(r, a.len() as int) + a.subrange(0, r)
}

/// Whether no two entries of a report hold the same issues. The same
/// cycle, begun at the same issue or at another, holds the same issues: so
/// no cycle is reported twice.
pub open spec fn entries_differ(report: Seq<Seq<IssueView>>) -> bool {
    forall|k1: int, k2: int|
        0 <= k1 < k2 < report.len() ==> !#[trigger] same_issues(report[k1], report[k2])
}

/// Whether `report` is a report of the cycles of a snapshot: every entry is
/// a cycle without a repeated issue, every cycle of the snapshot has an
/// edge that closes one of the entries, and no two entries hold the same
/// issues.
pub open spec fn is_cycle_report(
    issues: Seq<IssueView>,
    deps: Seq<DependencyView>,
    report: Seq<Seq<IssueView>>,
) -> bool {
    &&& forall|k: int|
        0 <= k < report.len() ==> #[trigger] is_reported_cycle(issues, deps, report[k])
    &&& forall|c: Seq<Seq<char>>| #[trigger]
        is_cycle(issues, deps, c) ==> some_edge_closed(report, c)
    &&& entries_differ(report)
}

/// A report of cycles is empty exactly when the snapshot has no cycle.
pub proof fn lemma_no_report_iff_acyclic(
    issues: Seq<IssueView>,
    deps: Seq<DependencyView>,
    report: Seq<Seq<IssueView>>,
)
    requires
        is_cycle_report(issues, deps, report),
    ensures
        report.len() == 0 <==> acyclic(issues, deps),
{
    if report.len() == 0 {
        assert forall|c: Seq<Seq<char>>| !#[trigger] is_cycle(issues, deps, c) by {
            if is_cycle(issues, deps, c) {
                assert(some_edge_closed(report, c));
            }
        }
    } else {
        assert(is_reported_cycle(issues, deps, report[0]));
        assert(is_cycle(issues, deps, ids_of(report[0])));
    }
}

/// An issue that depends on itself is reported as a cycle of its own.
pub proof fn lemma_self_loop_reported(
    issues: Seq<IssueView>,
    deps: Seq<DependencyView>,
    report: Seq<Seq<IssueView>>,
    a: Seq<char>,
) -> (k: int)
    requires
        is_cycle_report(issues, deps, report),
        depends_on(issues, deps, a, a),
    ensures
        0 <= k < report.len(),
        ids_of(report[k]) == seq![a],
        forall|m: int| 0 <= m < report.len() && ids_of(#[trigger] report[m]) == seq![a] ==> m == k,
{
    let c = seq![a];
    assert(is_cycle(issues, deps, c)) by {
        assert(next_on(c, 0) == a);
    }
    assert(some_edge_closed(report, c));
    let (i, k) = choose|i: int, k: int|
        #![trigger report[k], c[i]]
        0 <= i < c.len() && 0 <= k < report.len() && closes_edge(report[k], c[i], next_on(c, i));
    let l = report[k];
    assert(is_reported_cycle(issues, deps, l));
    let ids = ids_of(l);
    if l.len() > 1 {
        assert(ids[0] == ids[l.len() - 1]);
    }
    assert(ids =~= seq![a]);
    assert forall|m: int| 0 <= m < report.len() && ids_of(#[trigger] report[m])
        == seq![a] implies m == k by {
        if m != k {
            let other = report[m];
            assert(ids_of(other).len() == 1);
            assert(ids_of(other)[0] == a && ids_of(l)[0] == a);
            assert(same_issues(l, other)) by {
                assert(other[0].id == a);
                assert(l[0].id == a);
            }
            assert(same_issues(other, l));
            if m < k {
                assert(!same_issues(report[m], report[k]));
            } else {
                assert(!same_issues(report[k], report[m]));
            }
        }
    }
    k
}

/// No two entries of a report are the same cycle begun at different
/// issues, nor the same list.
pub proof fn lemma_no_rotation(
    issues: Seq<IssueView>,
    deps: Seq<DependencyView>,
    report: Seq<Seq<IssueView>>,
    k1: int,
    k2: int,
)
    requires
        is_cycle_report(issues, deps, report),
        0 <= k1 < report.len(),
        0 <= k2 < report.len(),
        k1 != k2,
    ensures
        !is_rotation(report[k1], report[k2]),
        report[k1] != report[k2],
{
    let a = report[k1];
    let b = report[k2];
    if is_rotation(a, b) {
        let r = choose|r: int|
            0 <= r <= a.len() && b == #[trigger] a.subrange(r, a.len() as int) + a.subrange(0, r);
        let n = a.len() as int;
        assert forall|i: int| 0 <= i < a.len() implies has_id(b, (#[trigger] a[i]).id) by {
            if i >= r {
                assert(b[i - r] == a[i]);
            } else {
                assert(b[n - r + i] == a[i]);
            }
        }
        assert forall|j: int| 0 <= j < b.len() implies has_id(a, (#[trigger] b[j]).id) by {
            if j < n - r {
                assert(b[j] == a[r + j]);
            } else {
                assert(b[j] == a[j - (n - r)]);
            }
        }
        assert(same_issues(a, b));
        assert(same_issues(b, a));
        if k1 < k2 {
            assert(!same_issues(report[k1], report[k2]));
        } else {
            assert(!same_issues(report[k2], report[k1]));
        }
    }
    if a == b {
        assert(a.subrange(0, a.len() as int) + a.subrange(0, 0) =~= a);
        assert(is_rotation(a, b));
    }
}

/// Whether two lists of ids hold the same ids, in whatever order.
pub open spec fn same_ids(c: Seq<Seq<char>>, d: Seq<Seq<char>>) -> bool {
    &&& forall|i: int| 0 <= i < c.len() ==> d.contains(#[trigger] c[i])
    &&& forall|j: int| 0 <= j < d.len() ==> c.contains(#[trigger] d[j])
}

/// Whether two lists of ids share an id.
pub open spec fn share_id(c: Seq<Seq<char>>, d: Seq<Seq<char>>) -> bool {
    exists|i: int| 0 <= i < c.len() && d.contains(#[trigger] c[i])
}

/// Two lists of issues whose ids are those of the same list of ids hold the
/// same issues.
proof fn lemma_same_ids(l: Seq<IssueView>, m: Seq<IssueView>, c: Seq<Seq<char>>)
    requires
        same_ids(ids_of(l), c),
        same_ids(ids_of(m), c),
    ensures
        same_issues(l, m),
{
    assert forall|i: int| 0 <= i < l.len() implies has_id(m, (#[trigger] l[i]).id) by {
        assert(ids_of(l)[i] == l[i].id);
        assert(c.contains(ids_of(l)[i]));
        let j = choose|j: int| 0 <= j < c.len() && c[j] == l[i].id;
        assert(ids_of(m).contains(c[j]));
        let k = choose|k: int| 0 <= k < ids_of(m).len() && ids_of(m)[k] == c[j];
        assert(m[k].id == l[i].id);
    }
    assert forall|i: int| 0 <= i < m.len() implies has_id(l, (#[trigger] m[i]).id) by {
        assert(ids_of(m)[i] == m[i].id);
        assert(c.contains(ids_of(m)[i]));
        let j = choose|j: int| 0 <= j < c.len() && c[j] == m[i].id;
        assert(ids_of(l).contains(c[j]));
        let k = choose|k: int| 0 <= k < ids_of(l).len() && ids_of(l)[k] == c[j];
        assert(l[k].id == m[i].id);
    }
}

/// Where every cycle of a snapshot runs through the issues of one cycle,
/// the report has exactly one entry.
pub proof fn lemma_one_cycle(
    issues: Seq<IssueView>,
    deps: Seq<DependencyView>,
    report: Seq<Seq<IssueView>>,
    c: Seq<Seq<char>>,
)
    requires
        is_cycle_report(issues, deps, report),
        is_cycle(issues, deps, c),
        forall|d: Seq<Seq<char>>| #[trigger] is_cycle(issues, deps, d) ==> same_ids(d, c),
    ensures
        report.len() == 1,
{
    assert(some_edge_closed(report, c));
    if report.len() >= 2 {
        assert(is_reported_cycle(issues, deps, report[0]));
        assert(is_reported_cycle(issues, deps, report[1]));
        lemma_same_ids(report[0], report[1], c);
        assert(!same_issues(report[0], report[1]));
    }
}

/// Where a snapshot has two cycles that share no issue, and every cycle
/// runs through the issues of the one or of the other, the report has
/// exactly two entries.
pub proof fn lemma_two_cycles(
    issues: Seq<IssueView>,
    deps: Seq<DependencyView>,
    report: Seq<Seq<IssueView>>,
    c: Seq<Seq<char>>,
    d: Seq<Seq<char>>,
)
    requires
        is_cycle_report(issues, deps, report),
        is_cycle(issues, deps, c),
        is_cycle(issues, deps, d),
        !share_id(c, d),
        forall|e: Seq<Seq<char>>| #[trigger]
            is_cycle(issues, deps, e) ==> same_ids(e, c) || same_ids(e, d),
    ensures
        report.len() == 2,
{
    assert(some_edge_closed(report, c));
    assert(some_edge_closed(report, d));
    let (k1, i1) = choose|k: int, i: int|
        0 <= k < report.len() && 0 <= i < c.len() && #[trigger] closes_edge(
            report[k],
            c[i],
            next_on(c, i),
        );
    let (k2, i2) = choose|k: int, i: int|
        0 <= k < report.len() && 0 <= i < d.len() && #[trigger] closes_edge(
            report[k],
            d[i],
            next_on(d, i),
        );
    assert(is_reported_cycle(issues, deps, report[k1]));
    assert(is_reported_cycle(issues, deps, report[k2]));
    let a = ids_of(report[k1]);
    let b = ids_of(report[k2]);
    assert(a.contains(c[i1]));
    assert(b.contains(d[i2]));
    assert(d.contains(d[i2]));
    if same_ids(a, d) {
        let j = choose|j: int| 0 <= j < a.len() && a[j] == c[i1];
        assert(d.contains(a[j]));
        assert(share_id(c, d));
    }
    if same_ids(b, c) {
        let j = choose|j: int| 0 <= j < d.len() && d[j] == d[i2];
        assert(c.contains(d[i2]));
        let m = choose|m: int| 0 <= m < c.len() && c[m] == d[i2];
        assert(d.contains(c[m]));
        assert(share_id(c, d));
    }
    assert(same_ids(a, c) && same_ids(b, d));
    if k1 == k2 {
        assert(d.contains(a[0]));
        assert(c.contains(a[0]));
        let m = choose|m: int| 0 <= m < c.len() && c[m] == a[0];
        assert(d.contains(c[m]));
        assert(share_id(c, d));
    }
    if report.len() >= 3 {
        let k3: int = if k1 != 0 && k2 != 0 {
            0
        } else if k1 != 1 && k2 != 1 {
            1
        } else {
            2
        };
        assert(is_reported_cycle(issues, deps, report[k3]));
        let other = if same_ids(ids_of(report[k3]), c) { k1 } else { k2 };
        if other == k1 {
            lemma_same_ids(report[k3], report[k1], c);
        } else {
            lemma_same_ids(report[k3], report[k2], d);
        }
        assert(same_issues(report[k3], report[other]));
        lemma_same_ids(report[other], report[k3], if other == k1 { c } else { d });
        assert(same_issues(report[other], report[k3]));
        if k3 < other {
            assert(!same_issues(report[k3], report[other]));
        } else {
            assert(!same_issues(report[other], report[k3]));
        }
    }
}

/// An arc of the graph stands for a dependency between the issues at its
/// ends, each of which stands for its id.
proof fn lemma_arc_depends(
    issues: Seq<IssueView>,
    deps: Seq<DependencyView>,
    g: Seq<Seq<usize>>,
    a: int,
    b: int,
)
    requires
        issues.len() <= usize::MAX,
        is_adjacency(g, issues, deps, EdgeKind::Constraining, false),
        is_arc(g, a, b),
    ensures
        is_first_index(issues, issues[a].id, a),
        is_first_index(issues, issues[b].id, b),
        depends_on(issues, deps, issues[a].id, issues[b].id),
{
    let j = choose|j: int| 0 <= j < g[a].len() && #[trigger] g[a][j] == b;
    assert(g[a] == children(issues, deps, a, EdgeKind::Constraining, false));
    let e = lemma_children_sound(issues, deps, a, EdgeKind::Constraining, false, deps.len() as int, j);
    assert(edge_leaves(issues, deps[e], a, EdgeKind::Constraining, false));
    assert(is_ordering_edge(deps[e], issues[a].id, issues[b].id));
}

/// A dependency between two issues is an arc between their positions.
proof fn lemma_depends_arc(
    issues: Seq<IssueView>,
    deps: Seq<DependencyView>,
    g: Seq<Seq<usize>>,
    x: Seq<char>,
    y: Seq<char>,
)
    requires
        issues.len() <= usize::MAX,
        is_adjacency(g, issues, deps, EdgeKind::Constraining, false),
        depends_on(issues, deps, x, y),
    ensures
        is_first_index(issues, x, first_index(issues, x)),
        is_first_index(issues, y, first_index(issues, y)),
        is_arc(g, first_index(issues, x), first_index(issues, y)),
{
    let wx = choose|w: int| 0 <= w < issues.len() && #[trigger] issues[w].id == x;
    lemma_first_index_exists(issues, x, wx);
    let wy = choose|w: int| 0 <= w < issues.len() && #[trigger] issues[w].id == y;
    lemma_first_index_exists(issues, y, wy);
    let a = first_index(issues, x);
    let k = choose|k: int| 0 <= k < deps.len() && is_ordering_edge(#[trigger] deps[k], x, y);
    assert(edge_leaves(issues, deps[k], a, EdgeKind::Constraining, false));
    let j = lemma_children_complete(issues, deps, a, EdgeKind::Constraining, false, deps.len() as int, k);
    assert(g[a] == children(issues, deps, a, EdgeKind::Constraining, false));
    assert(g[a][j] == first_index(issues, y));
}

/// The issues at the positions of a closed walk form a cycle as reported.
proof fn lemma_circuit_is_cycle(
    issues: Seq<IssueView>,
    deps: Seq<DependencyView>,
    g: Seq<Seq<usize>>,
    x: Seq<usize>,
    l: Seq<IssueView>,
)
    requires
        issues.len() <= usize::MAX,
        graph_ok(g),
        is_adjacency(g, issues, deps, EdgeKind::Constraining, false),
        is_circuit(g, x),
        x.no_duplicates(),
        l.len() == x.len(),
        forall|i: int| 0 <= i < x.len() ==> #[trigger] l[i] == issues[x[i] as int],
    ensures
        is_reported_cycle(issues, deps, l),
        forall|i: int|
            0 <= i < x.len() ==> is_first_index(issues, (#[trigger] l[i]).id, x[i] as int),
{
    let ids = ids_of(l);
    assert forall|i: int| 0 <= i < x.len() implies is_first_index(
        issues,
        (#[trigger] l[i]).id,
        x[i] as int,
    ) && depends_on(issues, deps, ids[i], next_on(ids, i)) by {
        if i + 1 < x.len() {
            assert(is_arc(g, x[i] as int, x[i + 1] as int));
            lemma_arc_depends(issues, deps, g, x[i] as int, x[i + 1] as int);
            assert(l[i + 1] == issues[x[i + 1] as int]);
        } else {
            lemma_arc_depends(issues, deps, g, x[i] as int, x[0] as int);
            assert(l[0] == issues[x[0] as int]);
        }
    }
    assert forall|i: int| 0 <= i < ids.len() implies depends_on(
        issues,
        deps,
        #[trigger] ids[i],
        next_on(ids, i),
    ) by {
        assert(is_first_index(issues, l[i].id, x[i] as int));
    }
    assert forall|i: int| 0 <= i < l.len() implies is_first_index(
        issues,
        (#[trigger] l[i]).id,
        first_index(issues, l[i].id),
    ) && issues[first_index(issues, l[i].id)] == l[i] by {
        lemma_first_index_unique(issues, l[i].id, x[i] as int, x[i] as int);
    }
    assert forall|i: int, j: int| 0 <= i < ids.len() && 0 <= j < ids.len() && i != j implies ids[i]
        != ids[j] by {
        if ids[i] == ids[j] {
            assert(is_first_index(issues, l[i].id, x[i] as int));
            assert(is_first_index(issues, l[j].id, x[j] as int));
            lemma_first_index_unique(issues, l[i].id, x[i] as int, x[j] as int);
        }
    }
}

/// Every cycle of a searched snapshot has an edge that closes a reported
/// cycle.
proof fn lemma_cycle_closed(
    issues: Seq<IssueView>,
    deps: Seq<DependencyView>,
    g: Seq<Seq<usize>>,
    found: Seq<Seq<usize>>,
    rank: Seq<nat>,
    report: Seq<Seq<IssueView>>,
    c: Seq<Seq<char>>,
)
    requires
        issues.len() <= usize::MAX,
        graph_ok(g),
        is_adjacency(g, issues, deps, EdgeKind::Constraining, false),
        arcs_settled(g, found, rank),
        report.len() == found.len(),
        forall|k: int|
            0 <= k < found.len() ==> (#[trigger] report[k]).len() == found[k].len()
                && forall|i: int|
                0 <= i < found[k].len() ==> #[trigger] report[k][i] == issues[found[k][i] as int],
        is_cycle(issues, deps, c),
    ensures
        some_edge_closed(report, c),
{
    let x = Seq::new(c.len(), |i: int| first_index(issues, c[i]) as usize);
    assert forall|i: int| 0 <= i < c.len() implies is_first_index(
        issues,
        #[trigger] c[i],
        x[i] as int,
    ) && is_arc(g, x[i] as int, next_at(x, i) as int) by {
        lemma_depends_arc(issues, deps, g, c[i], next_on(c, i));
    }
    assert(is_circuit(g, x)) by {
        assert forall|i: int| 0 <= i < x.len() - 1 implies is_arc(
            g,
            #[trigger] x[i] as int,
            x[i + 1] as int,
        ) by {
            assert(is_first_index(issues, c[i], x[i] as int));
            assert(next_at(x, i) == x[i + 1]);
        }
        assert(is_first_index(issues, c[x.len() - 1], x[x.len() - 1] as int));
        assert(next_at(x, x.len() - 1) == x[0]);
    }
    let i = lemma_circuit_closed(g, found, rank, x);
    let k = choose|k: int|
        0 <= k < found.len() && (#[trigger] found[k]).len() >= 1 && found[k][0] == next_at(x, i)
            && found[k][found[k].len() - 1] == x[i];
    assert(report[k].len() == found[k].len());
    assert(report[k][0] == issues[found[k][0] as int]);
    assert(report[k][report[k].len() - 1] == issues[found[k][found[k].len() - 1] as int]);
    assert(is_first_index(issues, c[i], x[i] as int));
    if i + 1 < c.len() {
        assert(is_first_index(issues, c[i + 1], x[i + 1] as int));
    } else {
        assert(is_first_index(issues, c[0], x[0] as int));
    }
    assert(closes_edge(report[k], c[i], next_on(c, i)));
}

/// What a search finds in a graph holds of every graph with the same
/// arcs.
proof fn lemma_same_arcs(h: Seq<Seq<usize>>, g: Seq<Seq<usize>>, found: Seq<Seq<usize>>, rank: Seq<nat>)
    requires
        graph_ok(g),
        h.len() == g.len(),
        forall|a: int, b: int| is_arc(h, a, b) <==> is_arc(g, a, b),
        circuits_ok(h, found),
        arcs_settled(h, found, rank),
    ensures
        circuits_ok(g, found),
        arcs_settled(g, found, rank),
{
    assert forall|k: int| 0 <= k < found.len() implies is_circuit(g, #[trigger] found[k])
        && found[k].no_duplicates() by {
        let c = found[k];
        assert(is_circuit(h, c));
        assert forall|i: int| 0 <= i < c.len() - 1 implies is_arc(
            g,
            #[trigger] c[i] as int,
            c[i + 1] as int,
        ) by {
            assert(is_arc(h, c[i] as int, c[i + 1] as int));
        }
        assert(is_arc(h, c[c.len() - 1] as int, c[0] as int));
    }
    assert forall|u: int, j: int| 0 <= u < g.len() && 0 <= j < g[u].len() implies reported(
        found,
        (#[trigger] g[u][j]) as int,
        u,
    ) || rank[g[u][j] as int] < rank[u] by {
        let b = g[u][j];
        assert(is_arc(g, u, b as int));
        assert(is_arc(h, u, b as int));
        let k = choose|k: int| 0 <= k < h[u].len() && #[trigger] h[u][k] == b;
        assert(reported(found, h[u][k] as int, u) || rank[h[u][k] as int] < rank[u]);
    }
}

/// Where every issue of one reported list is in another, every position
/// of the one is in the other.
proof fn lemma_same_positions(
    issues: Seq<IssueView>,
    x: Seq<usize>,
    l: Seq<IssueView>,
    y: Seq<usize>,
    m: Seq<IssueView>,
)
    requires
        l.len() == x.len(),
        m.len() == y.len(),
        forall|i: int| 0 <= i < x.len() ==> is_first_index(issues, (#[trigger] l[i]).id, x[i] as int),
        forall|i: int| 0 <= i < y.len() ==> is_first_index(issues, (#[trigger] m[i]).id, y[i] as int),
        forall|i: int| 0 <= i < l.len() ==> has_id(m, (#[trigger] l[i]).id),
    ensures
        forall|i: int| 0 <= i < x.len() ==> holds(y, #[trigger] x[i]),
{
    assert forall|i: int| 0 <= i < x.len() implies holds(y, #[trigger] x[i]) by {
        assert(has_id(m, l[i].id));
        let j = choose|j: int| 0 <= j < m.len() && (#[trigger] m[j]).id == l[i].id;
        assert(is_first_index(issues, l[i].id, x[i] as int));
        assert(is_first_index(issues, m[j].id, y[j] as int));
        lemma_first_index_unique(issues, l[i].id, x[i] as int, y[j] as int);
        assert(y[j] == x[i]);
    }
}

/// The issues at the positions that a search found are a report of the
/// cycles of the snapshot.
proof fn lemma_report(
    issues: Seq<IssueView>,
    deps: Seq<DependencyView>,
    g: Seq<Seq<usize>>,
    found: Seq<Seq<usize>>,
    rank: Seq<nat>,
    report: Seq<Seq<IssueView>>,
)
    requires
        issues.len() <= usize::MAX,
        graph_ok(g),
        is_adjacency(g, issues, deps, EdgeKind::Constraining, false),
        circuits_ok(g, found),
        arcs_settled(g, found, rank),
        members_differ(found),
        report.len() == found.len(),
        forall|k: int|
            0 <= k < found.len() ==> (#[trigger] report[k]).len() == found[k].len()
                && forall|i: int|
                0 <= i < found[k].len() ==> #[trigger] report[k][i] == issues[found[k][i] as int],
    ensures
        is_cycle_report(issues, deps, report),
{
    assert forall|m: int| 0 <= m < report.len() implies #[trigger] is_reported_cycle(
        issues,
        deps,
        report[m],
    ) by {
        assert(is_circuit(g, found[m]) && found[m].no_duplicates());
        lemma_circuit_is_cycle(issues, deps, g, found[m], report[m]);
    }
    assert forall|c: Seq<Seq<char>>| #[trigger] is_cycle(issues, deps, c) implies some_edge_closed(
        report,
        c,
    ) by {
        lemma_cycle_closed(issues, deps, g, found, rank, report, c);
    }
    assert forall|k1: int, k2: int| 0 <= k1 < k2 < report.len() implies !#[trigger] same_issues(
        report[k1],
        report[k2],
    ) by {
        if same_issues(report[k1], report[k2]) {
            assert(is_circuit(g, found[k1]) && found[k1].no_duplicates());
            assert(is_circuit(g, found[k2]) && found[k2].no_duplicates());
            lemma_circuit_is_cycle(issues, deps, g, found[k1], report[k1]);
            lemma_circuit_is_cycle(issues, deps, g, found[k2], report[k2]);
            lemma_same_positions(issues, found[k1], report[k1], found[k2], report[k2]);
            lemma_same_positions(issues, found[k2], report[k2], found[k1], report[k1]);
            assert(same_members(found[k1], found[k2]));
        }
    }
}

/// The issues at the positions of a list.
fn issues_at(issues: &Vec<Issue>, positions: &Vec<usize>) -> (l: Vec<Issue>)
    requires
        forall|i: int| 0 <= i < positions.len() ==> positions[i] < issues.len(),
    ensures
        l.len() == positions.len(),
        forall|i: int| 0 <= i < positions.len() ==> #[trigger] l[i]@ == issues[positions[i] as int]@,
{
    let mut l: Vec<Issue> = Vec::new();
    let mut i: usize = 0;
    while i < positions.len()
        invariant
            i <= positions.len(),
            l.len() == i,
            forall|k: int| 0 <= k < positions.len() ==> positions[k] < issues.len(),
            forall|k: int| 0 <= k < i ==> #[trigger] l[k]@ == issues[positions[k] as int]@,
        decreases positions.len() - i,
    {
        l.push(issues[positions[i]].clone());
        i = i + 1;
    }
    l
}

/// Finds the cycles among the edges of type `blocks` and `parent-child`.
///
/// An edge with an end that is no issue of the snapshot is left out. Every
/// entry of the result is a cycle in the order of its edges, without a
/// repeated issue; every cycle of the snapshot has an edge that closes an
/// entry; so the result is empty exactly when the snapshot has no cycle.
/// No two entries hold the same issues, so no cycle is reported twice,
/// whether begun at the same issue or at another.
pub fn detect_cycles(issues: &Vec<Issue>, deps: &Vec<Dependency>) -> (cycles: Vec<Vec<Issue>>)
    ensures
        is_cycle_report(issues.deep_view(), deps.deep_view(), cycles.deep_view()),
        cycles.len() == 0 <==> acyclic(issues.deep_view(), deps.deep_view()),
{
    let ghost iv = issues.deep_view();
    let ghost dv = deps.deep_view();
    let index = build_index(issues);
    let adj = build_adjacency(issues, deps, &index, EdgeKind::Constraining, false);
    let once = distinct_rows(&adj);
    let (found, Ghost(rank)) = find_cycles(&once);
    let ghost g = rows(adj@);
    let ghost fc = rows(found@);
    proof {
        lemma_same_arcs(rows(once@), g, fc, rank);
    }
    let mut cycles: Vec<Vec<Issue>> = Vec::new();
    let mut k: usize = 0;
    while k < found.len()
        invariant
            k <= found.len(),
            cycles.len() == k,
            iv == issues.deep_view(),
            g == rows(adj@),
            fc == rows(found@),
            members_differ(fc),
            graph_ok(g),
            g.len() == issues.len(),
            circuits_ok(g, fc),
            forall|m: int|
                0 <= m < k ==> (#[trigger] cycles@[m]).len() == fc[m].len() && forall|i: int|
                    0 <= i < fc[m].len() ==> #[trigger] cycles@[m]@[i]@ == iv[fc[m][i] as int],
        decreases found.len() - k,
    {
        proof {
            let x = fc[k as int];
            assert(x == found@[k as int]@);
            assert(is_circuit(g, x));
            assert forall|i: int| 0 <= i < x.len() implies x[i] < issues.len() by {
                if i + 1 < x.len() {
                    assert(is_arc(g, x[i] as int, x[i + 1] as int));
                } else {
                    assert(is_arc(g, x[x.len() - 1] as int, x[0] as int));
                }
            }
        }
        let l = issues_at(issues, &found[k]);
        cycles.push(l);
        k = k + 1;
    }
    proof {
        let report = cycles.deep_view();
        assert forall|m: int| 0 <= m < fc.len() implies (#[trigger] report[m]).len() == fc[m].len()
            && forall|i: int|
            0 <= i < fc[m].len() ==> #[trigger] report[m][i] == iv[fc[m][i] as int] by {
            assert(report[m] == cycles@[m].deep_view());
            assert forall|i: int| 0 <= i < fc[m].len() implies #[trigger] report[m][i]
                == iv[fc[m][i] as int] by {
                assert(report[m][i] == cycles@[m]@[i]@);
            }
        }
        lemma_report(iv, dv, g, fc, rank, report);
        lemma_no_report_iff_acyclic(iv, dv, report);
    }
    cycles
}

} // verus!
