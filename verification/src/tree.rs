//! Dependency trees: the issues reached from a root, in the order of a
//! depth-first walk.

use vstd::prelude::*;
use crate::graph::{build_adjacency, children, children_upto, EdgeKind};
use crate::index::{build_index, first_index, has_issue, lookup};
use crate::depth_first::{graph_ok, rows};
use crate::types::{Dependency, DependencyView, Issue, IssueView, TreeNode, TreeNodeView};

verus! {

/// How many positions are not marked.
pub open spec fn unmarked(marks: Seq<bool>) -> nat
    decreases marks.len(),
{
    if marks.len() == 0 {
        0
    } else {
        unmarked(marks.drop_last()) + if marks.last() {
            0nat
        } else {
            1nat
        }
    }
}

/// The marks of either list.
pub open spec fn union_marks(a: Seq<bool>, b: Seq<bool>) -> Seq<bool> {
    Seq::new(a.len(), |i: int| a[i] || b[i])
}

proof fn lemma_mark_decreases(marks: Seq<bool>, c: int)
    requires
        0 <= c < marks.len(),
        !marks[c],
    ensures
        unmarked(marks.update(c, true)) + 1 == unmarked(marks),
    decreases marks.len(),
{
    let after = marks.update(c, true);
    if c == marks.len() - 1 {
        assert(after.drop_last() =~= marks.drop_last());
    } else {
        lemma_mark_decreases(marks.drop_last(), c);
        assert(after.drop_last() =~= marks.drop_last().update(c, true));
    }
}

proof fn lemma_union_unmarked(a: Seq<bool>, b: Seq<bool>)
    ensures
        unmarked(union_marks(a, b)) <= unmarked(a),
    decreases a.len(),
{
    if a.len() > 0 {
        lemma_union_unmarked(a.drop_last(), b);
        assert(union_marks(a, b).drop_last() =~= union_marks(a.drop_last(), b));
    }
}

/// The next depth; a depth that cannot be counted any further stays.
pub open spec fn spec_deeper(depth: i32) -> i32 {
    if depth < i32::MAX {
        (depth + 1) as i32
    } else {
        depth
    }
}

#[verifier::when_used_as_spec(spec_deeper)]
fn deeper(depth: i32) -> (d: i32)
    ensures
        d == spec_deeper(depth),
{
    if depth < i32::MAX {
        depth + 1
    } else {
        depth
    }
}

/// Whether a node at the given depth is as deep as the tree may grow; a
/// limit of zero or less is none.
pub open spec fn at_limit(max_depth: i32, depth: i32) -> bool {
    max_depth > 0 && depth >= max_depth
}

/// The node of a tree for the issue at position `c`.
pub open spec fn tree_node(
    issues: Seq<IssueView>,
    c: int,
    depth: i32,
    parent: Seq<char>,
    truncated: bool,
) -> TreeNodeView {
    TreeNodeView { issue: issues[c], depth: depth, parent_id: parent, truncated: truncated }
}

/// A step of a walk: the position that is listed, its depth, the position
/// above it, and whether it is listed as a truncated leaf.
pub struct Step {
    pub position: int,
    pub depth: i32,
    pub parent: int,
    pub truncated: bool,
}

/// The nodes that the steps of a walk list.
pub open spec fn nodes_of(issues: Seq<IssueView>, steps: Seq<Step>) -> Seq<TreeNodeView> {
    Seq::new(
        steps.len(),
        |k: int|
            tree_node(
                issues,
                steps[k].position,
                steps[k].depth,
                issues[steps[k].parent].id,
                steps[k].truncated,
            ),
    )
}

/// Whether a walk can go on from child `j` of position `u`.
pub open spec fn walk_ok(g: Seq<Seq<usize>>, u: int, j: int, marks: Seq<bool>) -> bool {
    graph_ok(g) && marks.len() == g.len() && 0 <= u < g.len() && 0 <= j
}

/// The steps below position `u`, from its child `j` on, and the marks once
/// they are all taken. The issue at `u` stands at depth `depth` and is
/// marked.
///
/// A child that is marked is not entered again: where all paths are shown,
/// it is on the current path and is listed as a truncated leaf; where each
/// issue is shown once, it is passed over. A child of a node at the depth
/// limit is listed as a truncated leaf. Any other child is listed, marked,
/// and followed by the steps below it. Where all paths are shown the marks
/// are those of the current path; else they stay.
pub open spec fn walk(
    g: Seq<Seq<usize>>,
    max_depth: i32,
    all_paths: bool,
    u: int,
    depth: i32,
    j: int,
    marks: Seq<bool>,
) -> (Seq<Step>, Seq<bool>)
    decreases unmarked(marks), g[u].len() - j,
    when walk_ok(g, u, j, marks)
    via walk_decreases
{
    if j >= g[u].len() {
        (Seq::empty(), marks)
    } else {
        let c = g[u][j] as int;
        let leaf = Step { position: c, depth: spec_deeper(depth), parent: u, truncated: true };
        let step = if marks[c] {
            (
                if all_paths {
                    seq![leaf]
                } else {
                    Seq::empty()
                },
                marks,
            )
        } else if at_limit(max_depth, depth) {
            (
                seq![leaf],
                if all_paths {
                    marks
                } else {
                    marks.update(c, true)
                },
            )
        } else {
            let below = walk(g, max_depth, all_paths, c, spec_deeper(depth), 0, marks.update(c, true));
            (
                seq![Step { position: c, depth: spec_deeper(depth), parent: u, truncated: false }]
                    + below.0,
                if all_paths {
                    marks
                } else {
                    union_marks(marks, below.1)
                },
            )
        };
        let rest = walk(g, max_depth, all_paths, u, depth, j + 1, step.1);
        (step.0 + rest.0, rest.1)
    }
}

#[via_fn]
proof fn walk_decreases(
    g: Seq<Seq<usize>>,
    max_depth: i32,
    all_paths: bool,
    u: int,
    depth: i32,
    j: int,
    marks: Seq<bool>,
) {
    if j < g[u].len() {
        let c = g[u][j] as int;
        if !marks[c] {
            lemma_mark_decreases(marks, c);
        }
        assert forall|b: Seq<bool>| unmarked(#[trigger] union_marks(marks, b)) <= unmarked(marks) by {
            lemma_union_unmarked(marks, b);
        }
    }
}

/// A walk keeps the number of marks, never takes a mark away, and where
/// all paths are shown leaves the marks as they were.
proof fn lemma_walk_marks(
    g: Seq<Seq<usize>>,
    max_depth: i32,
    all_paths: bool,
    u: int,
    depth: i32,
    j: int,
    marks: Seq<bool>,
)
    requires
        walk_ok(g, u, j, marks),
    ensures
        walk(g, max_depth, all_paths, u, depth, j, marks).1.len() == marks.len(),
        forall|i: int|
            0 <= i < marks.len() && marks[i] ==> #[trigger] walk(g,
                max_depth,
                all_paths,
                u,
                depth,
                j,
                marks,
            ).1[i],
        all_paths ==> walk(g, max_depth, all_paths, u, depth, j, marks).1 == marks,
    decreases unmarked(marks), g[u].len() - j,
{
    if j < g[u].len() {
        let c = g[u][j] as int;
        let step_marks = if marks[c] {
            marks
        } else if at_limit(max_depth, depth) {
            if all_paths {
                marks
            } else {
                marks.update(c, true)
            }
        } else {
            let below = walk(g,
                max_depth,
                all_paths,
                c,
                spec_deeper(depth),
                0,
                marks.update(c, true),
            );
            lemma_mark_decreases(marks, c);
            lemma_walk_marks(g,
                max_depth,
                all_paths,
                c,
                spec_deeper(depth),
                0,
                marks.update(c, true),
            );
            lemma_union_unmarked(marks, below.1);
            if all_paths {
                marks
            } else {
                union_marks(marks, below.1)
            }
        };
        if !marks[c] {
            lemma_mark_decreases(marks, c);
        }
        lemma_walk_marks(g, max_depth, all_paths, u, depth, j + 1, step_marks);
    }
}

fn leaf_node(issues: &Vec<Issue>, c: usize, depth: i32, u: usize, truncated: bool) -> (node: TreeNode)
    requires
        c < issues.len(),
        u < issues.len(),
    ensures
        seq![node@] == nodes_of(
            issues.deep_view(),
            seq![
                Step { position: c as int, depth: depth, parent: u as int, truncated: truncated },
            ],
        ),
{
    assert(issues.deep_view()[c as int] == issues[c as int]@);
    assert(issues.deep_view()[u as int] == issues[u as int]@);
    let node = TreeNode {
        issue: issues[c].clone(),
        depth: depth,
        parent_id: issues[u].id.clone(),
        truncated: truncated,
    };
    assert(seq![node@] =~= nodes_of(
        issues.deep_view(),
        seq![Step { position: c as int, depth: depth, parent: u as int, truncated: truncated }],
    ));
    node
}

/// The nodes of two runs of steps are the nodes of the one followed by the
/// nodes of the other.
proof fn lemma_nodes_append(issues: Seq<IssueView>, a: Seq<Step>, b: Seq<Step>)
    ensures
        nodes_of(issues, a + b) == nodes_of(issues, a) + nodes_of(issues, b),
{
    assert(nodes_of(issues, a + b) =~= nodes_of(issues, a) + nodes_of(issues, b));
}

/// A node that a walk has entered and not yet left: its position, its
/// depth, and the child at which the walk goes on.
pub struct Frame {
    pub u: int,
    pub depth: i32,
    pub j: int,
}

/// The frames of a list.
pub open spec fn frames_view(frames: Seq<(usize, i32, usize)>) -> Seq<Frame> {
    Seq::new(frames.len(), |i: int| Frame { u: frames[i].0 as int, depth: frames[i].1, j: frames[i].2 as int })
}

/// The steps that are still to come once a walk has gone as far as the
/// frames say, and the marks in the end. The last frame is the node at
/// which the walk stands; when a node is left, the walk goes on in the
/// frame before it. Where all paths are shown, a node that is left is no
/// longer marked.
pub open spec fn finish(
    g: Seq<Seq<usize>>,
    max_depth: i32,
    all_paths: bool,
    frames: Seq<Frame>,
    marks: Seq<bool>,
) -> (Seq<Step>, Seq<bool>)
    decreases frames.len(),
{
    if frames.len() == 0 {
        (Seq::empty(), marks)
    } else {
        let top = frames.last();
        let here = walk(g, max_depth, all_paths, top.u, top.depth, top.j, marks);
        let left = if all_paths {
            here.1.update(top.u, false)
        } else {
            here.1
        };
        let rest = finish(g, max_depth, all_paths, frames.drop_last(), left);
        (here.0 + rest.0, rest.1)
    }
}

/// The arcs that the frames have not yet walked.
pub open spec fn unwalked(g: Seq<Seq<usize>>, frames: Seq<Frame>) -> int
    decreases frames.len(),
{
    if frames.len() == 0 {
        0
    } else {
        unwalked(g, frames.drop_last()) + g[frames.last().u].len() - frames.last().j
    }
}

/// Whether the frames are frames of the graph.
pub open spec fn frames_ok(g: Seq<Seq<usize>>, frames: Seq<Frame>) -> bool {
    forall|i: int|
        0 <= i < frames.len() ==> 0 <= (#[trigger] frames[i]).u < g.len() && 0 <= frames[i].j
            <= g[frames[i].u].len()
}

proof fn lemma_unwalked_nonnegative(g: Seq<Seq<usize>>, frames: Seq<Frame>)
    requires
        frames_ok(g, frames),
    ensures
        unwalked(g, frames) >= 0,
    decreases frames.len(),
{
    if frames.len() > 0 {
        assert(frames.drop_last().len() == frames.len() - 1);
        assert forall|i: int| 0 <= i < frames.drop_last().len() implies 0 <= (
        #[trigger] frames.drop_last()[i]).u < g.len() && 0 <= frames.drop_last()[i].j
            <= g[frames.drop_last()[i].u].len() by {
            assert(frames.drop_last()[i] == frames[i]);
        }
        lemma_unwalked_nonnegative(g, frames.drop_last());
        assert(0 <= frames[frames.len() - 1].j <= g[frames[frames.len() - 1].u].len());
    }
}

/// What is to come with one more frame: what is below the node of that
/// frame, then what is to come once it is left.
proof fn lemma_finish_push(
    g: Seq<Seq<usize>>,
    max_depth: i32,
    all_paths: bool,
    base: Seq<Frame>,
    top: Frame,
    marks: Seq<bool>,
)
    ensures
        finish(g, max_depth, all_paths, base.push(top), marks) == ({
            let here = walk(g, max_depth, all_paths, top.u, top.depth, top.j, marks);
            let left = if all_paths {
                here.1.update(top.u, false)
            } else {
                here.1
            };
            let rest = finish(g, max_depth, all_paths, base, left);
            (here.0 + rest.0, rest.1)
        }),
        unwalked(g, base.push(top)) == unwalked(g, base) + g[top.u].len() - top.j,
{
    assert(base.push(top).drop_last() =~= base);
    assert(base.push(top).last() == top);
}

/// A node whose arcs are all walked is left.
proof fn lemma_step_leave(
    g: Seq<Seq<usize>>,
    max_depth: i32,
    all_paths: bool,
    base: Seq<Frame>,
    top: Frame,
    marks: Seq<bool>,
)
    requires
        walk_ok(g, top.u, top.j, marks),
        top.j == g[top.u].len(),
    ensures
        finish(g, max_depth, all_paths, base.push(top), marks).0 == finish(
            g,
            max_depth,
            all_paths,
            base,
            if all_paths {
                marks.update(top.u, false)
            } else {
                marks
            },
        ).0,
        unwalked(g, base.push(top)) == unwalked(g, base),
{
    lemma_finish_push(g, max_depth, all_paths, base, top, marks);
    let here = walk(g, max_depth, all_paths, top.u, top.depth, top.j, marks);
    assert(here == (Seq::<Step>::empty(), marks));
    let left = if all_paths {
        marks.update(top.u, false)
    } else {
        marks
    };
    assert(Seq::<Step>::empty() + finish(g, max_depth, all_paths, base, left).0 =~= finish(
        g,
        max_depth,
        all_paths,
        base,
        left,
    ).0);
}

/// A child that is marked, or that lies beyond the depth limit, is listed
/// as a leaf or passed over, and the walk goes on with the next child.
proof fn lemma_step_pass(
    g: Seq<Seq<usize>>,
    max_depth: i32,
    all_paths: bool,
    base: Seq<Frame>,
    top: Frame,
    marks: Seq<bool>,
)
    requires
        walk_ok(g, top.u, top.j, marks),
        top.j < g[top.u].len(),
        marks[g[top.u][top.j] as int] || at_limit(max_depth, top.depth),
    ensures
        ({
            let c = g[top.u][top.j] as int;
            let leaf = Step {
                position: c,
                depth: spec_deeper(top.depth),
                parent: top.u,
                truncated: true,
            };
            let head = if marks[c] && !all_paths {
                Seq::<Step>::empty()
            } else {
                seq![leaf]
            };
            let marks2 = if !marks[c] && !all_paths {
                marks.update(c, true)
            } else {
                marks
            };
            finish(g, max_depth, all_paths, base.push(top), marks).0 == head + finish(
                g,
                max_depth,
                all_paths,
                base.push(Frame { j: top.j + 1, ..top }),
                marks2,
            ).0
        }),
        unwalked(g, base.push(Frame { j: top.j + 1, ..top })) == unwalked(g, base.push(top)) - 1,
{
    let c = g[top.u][top.j] as int;
    let moved = Frame { j: top.j + 1, ..top };
    let marks2 = if !marks[c] && !all_paths {
        marks.update(c, true)
    } else {
        marks
    };
    lemma_finish_push(g, max_depth, all_paths, base, top, marks);
    lemma_finish_push(g, max_depth, all_paths, base, moved, marks2);
    let here = walk(g, max_depth, all_paths, top.u, top.depth, top.j, marks);
    let rest = walk(g, max_depth, all_paths, top.u, top.depth, top.j + 1, marks2);
    let leaf = Step { position: c, depth: spec_deeper(top.depth), parent: top.u, truncated: true };
    let head = if marks[c] && !all_paths {
        Seq::<Step>::empty()
    } else {
        seq![leaf]
    };
    assert(here.0 == head + rest.0);
    assert(here.1 == rest.1);
    let left = if all_paths {
        here.1.update(top.u, false)
    } else {
        here.1
    };
    let after = finish(g, max_depth, all_paths, base, left).0;
    assert((head + rest.0) + after =~= head + (rest.0 + after));
}

/// Any other child is listed and entered.
proof fn lemma_step_enter(
    g: Seq<Seq<usize>>,
    max_depth: i32,
    all_paths: bool,
    base: Seq<Frame>,
    top: Frame,
    marks: Seq<bool>,
)
    requires
        walk_ok(g, top.u, top.j, marks),
        top.j < g[top.u].len(),
        !marks[g[top.u][top.j] as int],
        !at_limit(max_depth, top.depth),
    ensures
        ({
            let c = g[top.u][top.j] as int;
            let first = Step {
                position: c,
                depth: spec_deeper(top.depth),
                parent: top.u,
                truncated: false,
            };
            finish(g, max_depth, all_paths, base.push(top), marks).0 == seq![first] + finish(
                g,
                max_depth,
                all_paths,
                base.push(Frame { j: top.j + 1, ..top }).push(
                    Frame { u: c, depth: spec_deeper(top.depth), j: 0 },
                ),
                marks.update(c, true),
            ).0
        }),
{
    let c = g[top.u][top.j] as int;
    let next = spec_deeper(top.depth);
    let moved = Frame { j: top.j + 1, ..top };
    let child = Frame { u: c, depth: next, j: 0 };
    let first = Step { position: c, depth: next, parent: top.u, truncated: false };
    let m0 = marks.update(c, true);
    lemma_mark_decreases(marks, c);
    lemma_walk_marks(g, max_depth, all_paths, c, next, 0, m0);
    let below = walk(g, max_depth, all_paths, c, next, 0, m0);
    let m1 = if all_paths {
        marks
    } else {
        union_marks(marks, below.1)
    };
    let left_child = if all_paths {
        below.1.update(c, false)
    } else {
        below.1
    };
    assert(left_child =~= m1);
    let here = walk(g, max_depth, all_paths, top.u, top.depth, top.j, marks);
    let rest = walk(g, max_depth, all_paths, top.u, top.depth, top.j + 1, m1);
    assert(here.0 == (seq![first] + below.0) + rest.0);
    assert(here.1 == rest.1);
    lemma_finish_push(g, max_depth, all_paths, base, top, marks);
    lemma_finish_push(g, max_depth, all_paths, base, moved, m1);
    lemma_finish_push(g, max_depth, all_paths, base.push(moved), child, m0);
    let left = if all_paths {
        here.1.update(top.u, false)
    } else {
        here.1
    };
    let after = finish(g, max_depth, all_paths, base, left).0;
    assert(((seq![first] + below.0) + rest.0) + after =~= seq![first] + (below.0 + (rest.0 + after)));
}

/// Walks the graph below the position `root` without recursion: the nodes
/// that are entered and not yet left are kept as a list of frames.
fn walk_tree(
    issues: &Vec<Issue>,
    adj: &Vec<Vec<usize>>,
    max_depth: i32,
    all_paths: bool,
    root: usize,
    marks: &mut Vec<bool>,
    out: &mut Vec<TreeNode>,
)
    requires
        walk_ok(rows(adj@), root as int, 0, old(marks)@),
        issues.len() == adj.len(),
    ensures
        final(out).deep_view() == old(out).deep_view() + nodes_of(
            issues.deep_view(),
            walk(rows(adj@), max_depth, all_paths, root as int, 0, 0, old(marks)@).0,
        ),
{
    let ghost iv = issues.deep_view();
    let ghost g = rows(adj@);
    let ghost marks0 = marks@;
    let ghost out0 = out.deep_view();
    let ghost whole = walk(g, max_depth, all_paths, root as int, 0, 0, marks0).0;
    let ghost mut done: Seq<Step> = Seq::empty();
    let mut frames: Vec<(usize, i32, usize)> = Vec::new();
    frames.push((root, 0, 0));
    proof {
        let first = Frame { u: root as int, depth: 0, j: 0 };
        assert(frames_view(frames@) =~= Seq::<Frame>::empty().push(first));
        lemma_finish_push(g, max_depth, all_paths, Seq::empty(), first, marks0);
        assert(whole + Seq::<Step>::empty() =~= whole);
        assert(done + whole =~= whole);
        assert(out.deep_view() =~= out0 + nodes_of(iv, done));
    }
    while frames.len() > 0
        invariant
            iv == issues.deep_view(),
            g == rows(adj@),
            issues.len() == adj.len(),
            graph_ok(g),
            marks.len() == g.len(),
            frames_ok(g, frames_view(frames@)),
            out.deep_view() == out0 + nodes_of(iv, done),
            whole == done + finish(g, max_depth, all_paths, frames_view(frames@), marks@).0,
        decreases
                finish(g, max_depth, all_paths, frames_view(frames@), marks@).0.len(),
                unwalked(g, frames_view(frames@)),
                frames.len(),
    {
        let top = frames.len() - 1;
        let (u, depth, j) = frames[top];
        let ghost fv = frames_view(frames@);
        let ghost base = fv.drop_last();
        let ghost here = Frame { u: u as int, depth: depth, j: j as int };
        let ghost marks1 = marks@;
        let ghost out1 = out.deep_view();
        let ghost before = finish(g, max_depth, all_paths, fv, marks1).0;
        proof {
            assert(fv[top as int] == here);
            assert(fv =~= base.push(here));
            assert(g[u as int] == adj@[u as int]@);
            assert forall|i: int| 0 <= i < base.len() implies 0 <= (#[trigger] base[i]).u < g.len()
                && 0 <= base[i].j <= g[base[i].u].len() by {
                assert(base[i] == fv[i]);
            }
            lemma_unwalked_nonnegative(g, fv);
            lemma_unwalked_nonnegative(g, base);
        }
        if j >= adj[u].len() {
            frames.pop();
            if all_paths {
                marks[u] = false;
            }
            proof {
                assert(frames_view(frames@) =~= base);
                lemma_step_leave(g, max_depth, all_paths, base, here, marks1);
                assert(marks@ =~= if all_paths {
                    marks1.update(u as int, false)
                } else {
                    marks1
                });
            }
        } else {
            let c = adj[u][j];
            let limit = max_depth > 0 && depth >= max_depth;
            let next = deeper(depth);
            frames[top] = (u, depth, j + 1);
            let ghost moved = Frame { u: u as int, depth: depth, j: j + 1 };
            proof {
                assert(g[u as int][j as int] == c);
                assert(c < g.len());
                assert(frames_view(frames@) =~= base.push(moved));
                assert forall|i: int| 0 <= i < base.push(moved).len() implies 0 <= (
                #[trigger] base.push(moved)[i]).u < g.len() && 0 <= base.push(moved)[i].j
                    <= g[base.push(moved)[i].u].len() by {
                    if i < base.len() {
                        assert(base.push(moved)[i] == base[i]);
                    }
                }
            }
            let ghost head: Seq<Step>;
            if marks[c] || limit {
                let listed = all_paths || !marks[c];
                if listed {
                    let node = leaf_node(issues, c, next, u, true);
                    let ghost nv = node@;
                    out.push(node);
                    assert(out.deep_view() =~= out1 + seq![nv]);
                }
                if !all_paths && !marks[c] {
                    marks[c] = true;
                }
                proof {
                    lemma_step_pass(g, max_depth, all_paths, base, here, marks1);
                    head = if listed {
                        seq![
                            Step {
                                position: c as int,
                                depth: next,
                                parent: u as int,
                                truncated: true,
                            },
                        ]
                    } else {
                        Seq::empty()
                    };
                    assert(marks@ =~= if !marks1[c as int] && !all_paths {
                        marks1.update(c as int, true)
                    } else {
                        marks1
                    });
                    assert(out.deep_view() =~= out1 + nodes_of(iv, head));
                }
            } else {
                let node = leaf_node(issues, c, next, u, false);
                let ghost nv = node@;
                out.push(node);
                marks[c] = true;
                frames.push((c, next, 0));
                proof {
                    let child = Frame { u: c as int, depth: next, j: 0 };
                    head = seq![
                        Step { position: c as int, depth: next, parent: u as int, truncated: false },
                    ];
                    assert(out.deep_view() =~= out1 + seq![nv]);
                    assert(frames_view(frames@) =~= base.push(moved).push(child));
                    assert forall|i: int|
                        0 <= i < base.push(moved).push(child).len() implies 0 <= (
                    #[trigger] base.push(moved).push(child)[i]).u < g.len() && 0 <= base.push(
                        moved,
                    ).push(child)[i].j <= g[base.push(moved).push(child)[i].u].len() by {
                        if i < base.len() + 1 {
                            assert(base.push(moved).push(child)[i] == base.push(moved)[i]);
                        }
                    }
                    assert(marks@ =~= marks1.update(c as int, true));
                    lemma_step_enter(g, max_depth, all_paths, base, here, marks1);
                }
            }
            proof {
                let after = finish(g, max_depth, all_paths, frames_view(frames@), marks@).0;
                assert(before == head + after);
                lemma_nodes_append(iv, done, head);
                assert(out.deep_view() =~= out0 + nodes_of(iv, done + head));
                assert(whole =~= (done + head) + after);
                done = done + head;
            }
        }
    }
    proof {
        assert(frames_view(frames@) =~= Seq::<Frame>::empty());
        assert(whole =~= done);
    }
}

/// The rows of the graph of all edges of a snapshot, walked forward or in
/// reverse.
pub open spec fn tree_rows(issues: Seq<IssueView>, deps: Seq<DependencyView>, reverse: bool) -> Seq<
    Seq<usize>,
> {
    Seq::new(issues.len(), |a: int| children(issues, deps, a, EdgeKind::All, reverse))
}

/// The dependency tree of the issue with id `root`.
///
/// The tree is empty where no issue has that id. Else it starts with the
/// root, at depth 0 and without a parent, followed by the nodes below it:
/// forward the issues it depends on, in reverse the issues that depend on
/// it, by edges of every type, in the order of the edges.
pub open spec fn tree_of(
    issues: Seq<IssueView>,
    deps: Seq<DependencyView>,
    root: Seq<char>,
    max_depth: i32,
    all_paths: bool,
    reverse: bool,
) -> Seq<TreeNodeView> {
    if has_issue(issues, root) {
        let r = first_index(issues, root);
        let marks = Seq::new(issues.len(), |i: int| i == r);
        seq![tree_node(issues, r, 0, Seq::empty(), false)] + nodes_of(
            issues,
            walk(tree_rows(issues, deps, reverse), max_depth, all_paths, r, 0, 0, marks).0,
        )
    } else {
        Seq::empty()
    }
}

/// Builds the dependency tree of the issue with id `root`: what it depends
/// on, or with `reverse` what depends on it.
///
/// The nodes come in the order of a depth-first walk, each with its depth
/// below the root and the id of the node above it. With `show_all_paths`
/// every path from the root is listed, and an issue that is already on the
/// path is listed once more as a truncated leaf; without it every issue is
/// listed once, where the walk first comes to it. The issues below a node
/// at depth `max_depth` are listed as truncated leaves and not entered; a
/// `max_depth` of zero or less sets no limit.
pub fn dependency_tree(
    issues: &Vec<Issue>,
    deps: &Vec<Dependency>,
    root: &str,
    max_depth: i32,
    show_all_paths: bool,
    reverse: bool,
) -> (tree: Vec<TreeNode>)
    ensures
        tree.deep_view() == tree_of(
            issues.deep_view(),
            deps.deep_view(),
            root@,
            max_depth,
            show_all_paths,
            reverse,
        ),
{
    let ghost iv = issues.deep_view();
    let ghost dv = deps.deep_view();
    let index = build_index(issues);
    let mut tree: Vec<TreeNode> = Vec::new();
    match lookup(&index, root, Ghost(iv)) {
        Some(r) => {
            let adj = build_adjacency(issues, deps, &index, EdgeKind::All, reverse);
            assert(rows(adj@) =~= tree_rows(iv, dv, reverse));
            let mut marks: Vec<bool> = Vec::new();
            let mut i: usize = 0;
            while i < issues.len()
                invariant
                    i <= issues.len(),
                    marks.len() == i,
                    forall|k: int| 0 <= k < i ==> #[trigger] marks[k] == (k == r),
                decreases issues.len() - i,
            {
                marks.push(i == r);
                i = i + 1;
            }
            assert(marks@ =~= Seq::new(iv.len(), |i: int| i == r as int));
            assert(iv[r as int] == issues[r as int]@);
            tree.push(
                TreeNode {
                    issue: issues[r].clone(),
                    depth: 0,
                    parent_id: String::new(),
                    truncated: false,
                },
            );
            assert(tree.deep_view() =~= seq![tree_node(iv, r as int, 0, Seq::empty(), false)]);
            walk_tree(issues, &adj, max_depth, show_all_paths, r, &mut marks, &mut tree);
        },
        None => {
            assert(tree.deep_view() =~= Seq::<TreeNodeView>::empty());
        },
    }
    tree
}


/// Whether some arc of the graph leads to a position.
pub open spec fn is_child_position(g: Seq<Seq<usize>>, c: int) -> bool {
    exists|x: int, y: int| 0 <= x < g.len() && 0 <= y < g[x].len() && #[trigger] g[x][y] == c
}

/// Where each issue is shown once, a walk lists positions that were not
/// marked, each of them once, and marks them.
pub proof fn lemma_walk_once(
    g: Seq<Seq<usize>>,
    max_depth: i32,
    u: int,
    depth: i32,
    j: int,
    marks: Seq<bool>,
)
    requires
        walk_ok(g, u, j, marks),
    ensures
        forall|k: int|
            0 <= k < walk(g, max_depth, false, u, depth, j, marks).0.len() ==> {
                let c = (#[trigger] walk(g, max_depth, false, u, depth, j, marks).0[k]).position;
                &&& 0 <= c < g.len()
                &&& !marks[c]
                &&& walk(g, max_depth, false, u, depth, j, marks).1[c]
                &&& is_child_position(g, c)
            },
        forall|k1: int, k2: int|
            0 <= k1 < k2 < walk(g, max_depth, false, u, depth, j, marks).0.len() ==> (#[trigger] walk(
                g,
                max_depth,
                false,
                u,
                depth,
                j,
                marks,
            ).0[k1]).position != (#[trigger] walk(g, max_depth, false, u, depth, j, marks).0[k2]).position,
    decreases unmarked(marks), g[u].len() - j,
{
    let r = walk(g, max_depth, false, u, depth, j, marks);
    if j < g[u].len() {
        let c = g[u][j] as int;
        assert(is_child_position(g, c));
        let leaf = Step { position: c, depth: spec_deeper(depth), parent: u, truncated: true };
        if marks[c] {
            lemma_walk_once(g, max_depth, u, depth, j + 1, marks);
            let rest = walk(g, max_depth, false, u, depth, j + 1, marks);
            assert(r.0 =~= rest.0);
        } else if at_limit(max_depth, depth) {
            let m1 = marks.update(c, true);
            lemma_mark_decreases(marks, c);
            lemma_walk_once(g, max_depth, u, depth, j + 1, m1);
            lemma_walk_marks(g, max_depth, false, u, depth, j + 1, m1);
            let rest = walk(g, max_depth, false, u, depth, j + 1, m1);
            assert(r.0 =~= seq![leaf] + rest.0);
            assert forall|k: int| 0 <= k < r.0.len() implies {
                let p = (#[trigger] r.0[k]).position;
                &&& 0 <= p < g.len()
                &&& !marks[p]
                &&& r.1[p]
                &&& is_child_position(g, p)
            } by {
                if k > 0 {
                    assert(r.0[k] == rest.0[k - 1]);
                }
            }
            assert forall|k1: int, k2: int| 0 <= k1 < k2 < r.0.len() implies (#[trigger] r.0[k1]).position
                != (#[trigger] r.0[k2]).position by {
                assert(r.0[k2] == rest.0[k2 - 1]);
                if k1 > 0 {
                    assert(r.0[k1] == rest.0[k1 - 1]);
                }
            }
        } else {
            let first = Step { position: c, depth: spec_deeper(depth), parent: u, truncated: false };
            let m0 = marks.update(c, true);
            lemma_mark_decreases(marks, c);
            let below = walk(g, max_depth, false, c, spec_deeper(depth), 0, m0);
            lemma_walk_once(g, max_depth, c, spec_deeper(depth), 0, m0);
            lemma_walk_marks(g, max_depth, false, c, spec_deeper(depth), 0, m0);
            let m1 = union_marks(marks, below.1);
            lemma_union_unmarked(marks, below.1);
            assert(m1 =~= below.1);
            lemma_walk_once(g, max_depth, u, depth, j + 1, m1);
            lemma_walk_marks(g, max_depth, false, u, depth, j + 1, m1);
            let rest = walk(g, max_depth, false, u, depth, j + 1, m1);
            let head = seq![first] + below.0;
            assert(r.0 =~= head + rest.0);
            assert forall|k: int| 0 <= k < head.len() implies {
                let p = (#[trigger] head[k]).position;
                &&& 0 <= p < g.len()
                &&& !marks[p]
                &&& m1[p]
                &&& is_child_position(g, p)
            } by {
                if k > 0 {
                    assert(head[k] == below.0[k - 1]);
                }
            }
            assert forall|k: int| 0 <= k < r.0.len() implies {
                let p = (#[trigger] r.0[k]).position;
                &&& 0 <= p < g.len()
                &&& !marks[p]
                &&& r.1[p]
                &&& is_child_position(g, p)
            } by {
                if k < head.len() {
                    assert(r.0[k] == head[k]);
                } else {
                    assert(r.0[k] == rest.0[k - head.len()]);
                }
            }
            assert forall|k1: int, k2: int| 0 <= k1 < k2 < r.0.len() implies (#[trigger] r.0[k1]).position
                != (#[trigger] r.0[k2]).position by {
                if k2 < head.len() {
                    assert(r.0[k1] == head[k1] && r.0[k2] == head[k2]);
                    assert(head[k2] == below.0[k2 - 1]);
                    if k1 > 0 {
                        assert(head[k1] == below.0[k1 - 1]);
                    }
                } else if k1 < head.len() {
                    assert(r.0[k1] == head[k1]);
                    assert(r.0[k2] == rest.0[k2 - head.len()]);
                } else {
                    assert(r.0[k1] == rest.0[k1 - head.len()]);
                    assert(r.0[k2] == rest.0[k2 - head.len()]);
                }
            }
        }
    }
}

/// A tree that shows each issue once holds no id twice.
pub proof fn lemma_tree_once(
    issues: Seq<IssueView>,
    deps: Seq<DependencyView>,
    root: Seq<char>,
    max_depth: i32,
    reverse: bool,
)
    requires
        issues.len() <= usize::MAX,
        deps.len() <= usize::MAX,
    ensures
        forall|k1: int, k2: int|
            0 <= k1 < k2 < tree_of(issues, deps, root, max_depth, false, reverse).len() ==> (
            #[trigger] tree_of(issues, deps, root, max_depth, false, reverse)[k1]).issue.id != (
            #[trigger] tree_of(issues, deps, root, max_depth, false, reverse)[k2]).issue.id,
{
    if has_issue(issues, root) {
        let w = choose|w: int| 0 <= w < issues.len() && #[trigger] issues[w].id == root;
        crate::index::lemma_first_index_exists(issues, root, w);
        let r = first_index(issues, root);
        let g = tree_rows(issues, deps, reverse);
        let marks = Seq::new(issues.len(), |i: int| i == r);
        assert forall|a: int, y: int| 0 <= a < g.len() && 0 <= y < g[a].len() implies (
        #[trigger] g[a][y]) < g.len() && crate::index::is_first_index(
            issues,
            issues[g[a][y] as int].id,
            g[a][y] as int,
        ) by {
            let e = crate::graph::lemma_children_sound(
                issues,
                deps,
                a,
                EdgeKind::All,
                reverse,
                deps.len() as int,
                y,
            );
        }
        assert forall|a: int| 0 <= a < g.len() implies (#[trigger] g[a]).len() <= usize::MAX by {
            lemma_children_short(issues, deps, a, EdgeKind::All, reverse, deps.len() as int);
        }
        assert(graph_ok(g));
        lemma_walk_once(g, max_depth, r, 0, 0, marks);
        let steps = walk(g, max_depth, false, r, 0, 0, marks).0;
        let t = tree_of(issues, deps, root, max_depth, false, reverse);
        assert forall|k: int| 0 <= k < steps.len() implies crate::index::is_first_index(
            issues,
            issues[(#[trigger] steps[k]).position].id,
            steps[k].position,
        ) && steps[k].position != r by {
            let c = steps[k].position;
            assert(is_child_position(g, c));
            let (x, y) = choose|x: int, y: int|
                0 <= x < g.len() && 0 <= y < g[x].len() && #[trigger] g[x][y] == c;
            assert(crate::index::is_first_index(issues, issues[g[x][y] as int].id, g[x][y] as int));
        }
        assert forall|k1: int, k2: int| 0 <= k1 < k2 < t.len() implies (#[trigger] t[k1]).issue.id != (
        #[trigger] t[k2]).issue.id by {
            let p2 = steps[k2 - 1].position;
            assert(t[k2].issue == issues[p2]);
            let p1 = if k1 == 0 {
                r
            } else {
                steps[k1 - 1].position
            };
            assert(t[k1].issue == issues[p1]);
            assert(p1 != p2);
            if issues[p1].id == issues[p2].id {
                crate::index::lemma_first_index_unique(issues, issues[p1].id, p1, p2);
            }
        }
    }
}

proof fn lemma_children_short(
    issues: Seq<IssueView>,
    deps: Seq<DependencyView>,
    a: int,
    kind: EdgeKind,
    reverse: bool,
    k: int,
)
    requires
        0 <= k <= deps.len(),
    ensures
        children_upto(issues, deps, a, kind, reverse, k).len() <= k,
    decreases k,
{
    if k > 0 {
        lemma_children_short(issues, deps, a, kind, reverse, k - 1);
    }
}

} // verus!
