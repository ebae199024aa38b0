//! The dependency graph of a snapshot: issues as positions, edges as rows.

use vstd::prelude::*;
use vstd::hash_map::StringHashMap;
use crate::index::{
    first_index, has_issue, is_first_index, is_index_of, lemma_first_index_exists,
    lemma_first_index_unique, lookup,
};
use crate::depth_first::{graph_ok, rows};
use crate::types::{Dependency, DependencyType, DependencyView, Issue, IssueView, Status};

verus! {

/// Which edges a graph is made of.
#[derive(Debug, Clone, Copy, PartialEq, Eq, Structural)]
pub enum EdgeKind {
    /// Every edge.
    All,
    /// The edges that order work: `blocks` and `parent-child`.
    Constraining,
    /// The `blocks` edges that lead to an issue that is not closed.
    Blocking,
    /// The `parent-child` edges.
    Parenting,
}

/// Whether an edge has the type that the kind asks for.
pub open spec fn edge_selected(d: DependencyView, kind: EdgeKind) -> bool {
    match kind {
        EdgeKind::All => true,
        EdgeKind::Constraining => d.dep_type.spec_is_ordering(),
        EdgeKind::Blocking => d.dep_type == DependencyType::Blocks,
        EdgeKind::Parenting => d.dep_type == DependencyType::ParentChild,
    }
}

fn has_kind(d: &Dependency, kind: EdgeKind) -> (b: bool)
    ensures
        b == edge_selected(d@, kind),
{
    match kind {
        EdgeKind::All => true,
        EdgeKind::Constraining => d.dep_type.is_ordering(),
        EdgeKind::Blocking => match d.dep_type {
            DependencyType::Blocks => true,
            _ => false,
        },
        EdgeKind::Parenting => match d.dep_type {
            DependencyType::ParentChild => true,
            _ => false,
        },
    }
}

/// The id at which an edge starts: the dependent issue, or in reverse the
/// issue depended on.
pub open spec fn edge_source(d: DependencyView, reverse: bool) -> Seq<char> {
    if reverse {
        d.depends_on_id
    } else {
        d.issue_id
    }
}

/// The id at which an edge ends.
pub open spec fn edge_target(d: DependencyView, reverse: bool) -> Seq<char> {
    if reverse {
        d.issue_id
    } else {
        d.depends_on_id
    }
}

/// Whether edge `d` is of the kind asked for and leads from the issue at
/// position `a` to an issue of the snapshot. An edge with an end that is no
/// issue constrains nothing.
pub open spec fn edge_leaves(
    issues: Seq<IssueView>,
    d: DependencyView,
    a: int,
    kind: EdgeKind,
    reverse: bool,
) -> bool {
    &&& edge_selected(d, kind)
    &&& is_first_index(issues, edge_source(d, reverse), a)
    &&& has_issue(issues, edge_target(d, reverse))
    &&& (kind == EdgeKind::Blocking ==> issues[first_index(issues, edge_target(d, reverse))].status
        != Status::Closed)
}

/// The positions reached from position `a` by the first `k` edges, in the
/// order of the edges.
pub open spec fn children_upto(
    issues: Seq<IssueView>,
    deps: Seq<DependencyView>,
    a: int,
    kind: EdgeKind,
    reverse: bool,
    k: int,
) -> Seq<usize>
    decreases k,
{
    if k <= 0 {
        Seq::empty()
    } else {
        let rest = children_upto(issues, deps, a, kind, reverse, k - 1);
        if edge_leaves(issues, deps[k - 1], a, kind, reverse) {
            rest.push(first_index(issues, edge_target(deps[k - 1], reverse)) as usize)
        } else {
            rest
        }
    }
}

/// The positions reached from position `a`, in the order of the edges.
pub open spec fn children(
    issues: Seq<IssueView>,
    deps: Seq<DependencyView>,
    a: int,
    kind: EdgeKind,
    reverse: bool,
) -> Seq<usize> {
    children_upto(issues, deps, a, kind, reverse, deps.len() as int)
}

/// Whether the rows are the children of each position of the snapshot.
pub open spec fn is_adjacency(
    g: Seq<Seq<usize>>,
    issues: Seq<IssueView>,
    deps: Seq<DependencyView>,
    kind: EdgeKind,
    reverse: bool,
) -> bool {
    &&& g.len() == issues.len()
    &&& forall|a: int|
        0 <= a < g.len() ==> #[trigger] g[a] == children(issues, deps, a, kind, reverse)
}

/// Every child is the first position of the target of an edge that leaves.
pub proof fn lemma_children_sound(
    issues: Seq<IssueView>,
    deps: Seq<DependencyView>,
    a: int,
    kind: EdgeKind,
    reverse: bool,
    k: int,
    j: int,
) -> (e: int)
    requires
        issues.len() <= usize::MAX,
        0 <= k <= deps.len(),
        0 <= j < children_upto(issues, deps, a, kind, reverse, k).len(),
    ensures
        0 <= e < k,
        edge_leaves(issues, deps[e], a, kind, reverse),
        children_upto(issues, deps, a, kind, reverse, k)[j] == first_index(
            issues,
            edge_target(deps[e], reverse),
        ),
        is_first_index(
            issues,
            edge_target(deps[e], reverse),
            children_upto(issues, deps, a, kind, reverse, k)[j] as int,
        ),
    decreases k,
{
    let rest = children_upto(issues, deps, a, kind, reverse, k - 1);
    if edge_leaves(issues, deps[k - 1], a, kind, reverse) && j == rest.len() {
        let t = edge_target(deps[k - 1], reverse);
        let w = choose|w: int| 0 <= w < issues.len() && #[trigger] issues[w].id == t;
        lemma_first_index_exists(issues, t, w);
        k - 1
    } else {
        lemma_children_sound(issues, deps, a, kind, reverse, k - 1, j)
    }
}

/// The target of every edge that leaves is among the children.
pub proof fn lemma_children_complete(
    issues: Seq<IssueView>,
    deps: Seq<DependencyView>,
    a: int,
    kind: EdgeKind,
    reverse: bool,
    k: int,
    e: int,
) -> (j: int)
    requires
        issues.len() <= usize::MAX,
        0 <= e < k <= deps.len(),
        edge_leaves(issues, deps[e], a, kind, reverse),
    ensures
        0 <= j < children_upto(issues, deps, a, kind, reverse, k).len(),
        children_upto(issues, deps, a, kind, reverse, k)[j] == first_index(
            issues,
            edge_target(deps[e], reverse),
        ),
    decreases k,
{
    let rest = children_upto(issues, deps, a, kind, reverse, k - 1);
    if e == k - 1 {
        let t = edge_target(deps[e], reverse);
        let w = choose|w: int| 0 <= w < issues.len() && #[trigger] issues[w].id == t;
        lemma_first_index_exists(issues, t, w);
        rest.len() as int
    } else {
        lemma_children_complete(issues, deps, a, kind, reverse, k - 1, e)
    }
}

/// Builds the rows of a snapshot's graph: for each position the positions
/// its edges lead to, in the order of the edges.
pub(crate) fn build_adjacency(
    issues: &Vec<Issue>,
    deps: &Vec<Dependency>,
    index: &StringHashMap<usize>,
    kind: EdgeKind,
    reverse: bool,
) -> (adj: Vec<Vec<usize>>)
    requires
        is_index_of(index@, issues.deep_view()),
    ensures
        is_adjacency(rows(adj@), issues.deep_view(), deps.deep_view(), kind, reverse),
        graph_ok(rows(adj@)),
{
    let ghost iv = issues.deep_view();
    let ghost dv = deps.deep_view();
    let n = issues.len();
    let mut adj: Vec<Vec<usize>> = Vec::new();
    let mut i: usize = 0;
    while i < n
        invariant
            i <= n,
            adj.len() == i,
            forall|a: int| 0 <= a < i ==> (#[trigger] adj@[a])@.len() == 0,
        decreases n - i,
    {
        adj.push(Vec::new());
        i = i + 1;
    }
    let mut k: usize = 0;
    while k < deps.len()
        invariant
            k <= deps.len(),
            n == issues.len(),
            adj.len() == n,
            iv == issues.deep_view(),
            dv == deps.deep_view(),
            is_index_of(index@, iv),
            forall|a: int|
                0 <= a < n ==> (#[trigger] adj@[a])@ == children_upto(
                    iv,
                    dv,
                    a,
                    kind,
                    reverse,
                    k as int,
                ),
            forall|a: int, j: int|
                0 <= a < n && 0 <= j < adj@[a]@.len() ==> (#[trigger] adj@[a]@[j]) < n,
        decreases deps.len() - k,
    {
        let d = &deps[k];
        assert(dv[k as int] == d@);
        let selected = has_kind(d, kind);
        let mut pushed: bool = false;
        let ghost mut src: int = 0;
        if selected {
            let (from, to) = if reverse {
                (&d.depends_on_id, &d.issue_id)
            } else {
                (&d.issue_id, &d.depends_on_id)
            };
            assert(from@ == edge_source(d@, reverse));
            assert(to@ == edge_target(d@, reverse));
            match lookup(index, from.as_str(), Ghost(iv)) {
                Some(a) => {
                    match lookup(index, to.as_str(), Ghost(iv)) {
                        Some(b) => {
                            let open_target = match issues[b].status {
                                Status::Closed => false,
                                _ => true,
                            };
                            let wanted = match kind {
                                EdgeKind::Blocking => open_target,
                                _ => true,
                            };
                            assert(iv[b as int] == issues[b as int]@);
                            if wanted {
                                adj[a].push(b);
                                pushed = true;
                                proof {
                                    src = a as int;
                                }
                            }
                        },
                        None => {},
                    }
                },
                None => {},
            }
        }
        proof {
            assert forall|a: int| 0 <= a < n implies (#[trigger] adj@[a])@ == children_upto(
                iv,
                dv,
                a,
                kind,
                reverse,
                k + 1,
            ) by {
                if pushed && a == src {
                    assert(edge_leaves(iv, dv[k as int], a, kind, reverse));
                } else if pushed {
                    if edge_leaves(iv, dv[k as int], a, kind, reverse) {
                        lemma_first_index_unique(iv, edge_source(dv[k as int], reverse), a, src);
                    }
                } else {
                    if edge_leaves(iv, dv[k as int], a, kind, reverse) {
                        lemma_first_index_unique(iv, edge_source(dv[k as int], reverse), a, a);
                    }
                }
            }
        }
        k = k + 1;
    }
    proof {
        assert forall|a: int| 0 <= a < rows(adj@).len() implies #[trigger] rows(adj@)[a]
            == children(iv, dv, a, kind, reverse) by {
            assert(rows(adj@)[a] == adj@[a]@);
        }
        assert forall|a: int, j: int| 0 <= a < rows(adj@).len() && 0 <= j < rows(
            adj@,
        )[a].len() implies (#[trigger] rows(adj@)[a][j]) < rows(adj@).len() by {
            assert(rows(adj@)[a] == adj@[a]@);
            assert(adj@[a]@[j] < n);
        }
        assert forall|a: int| 0 <= a < rows(adj@).len() implies (#[trigger] rows(adj@)[a]).len()
            <= usize::MAX by {
            assert(rows(adj@)[a] == adj@[a]@);
            assert(adj@[a].len() <= usize::MAX);
        }
    }
    adj
}

} // verus!
