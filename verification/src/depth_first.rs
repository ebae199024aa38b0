//! Depth-first search for cycles in a graph over positions.
//!
//! The graph is given by its rows: row `a` lists the targets of the arcs
//! that leave position `a`. The search colours each position white (not
//! reached), grey (on the current path) or black (done), walks every arc
//! once, and reports the path from `v` to `u` whenever an arc from `u` leads
//! to a grey `v`.

use vstd::prelude::*;

verus! {

/// The rows of a nested list.
pub open spec fn rows(v: Seq<Vec<usize>>) -> Seq<Seq<usize>> {
    Seq::new(v.len(), |i: int| v[i]@)
}

/// Whether every arc of the graph leads to a position of the graph.
pub open spec fn graph_ok(g: Seq<Seq<usize>>) -> bool {
    &&& g.len() <= usize::MAX
    &&& forall|a: int| 0 <= a < g.len() ==> (#[trigger] g[a]).len() <= usize::MAX
    &&& forall|a: int, j: int|
        0 <= a < g.len() && 0 <= j < g[a].len() ==> (#[trigger] g[a][j]) < g.len()
}

/// Whether the graph has an arc from `a` to `b`.
pub open spec fn is_arc(g: Seq<Seq<usize>>, a: int, b: int) -> bool {
    0 <= a < g.len() && exists|j: int| 0 <= j < g[a].len() && #[trigger] g[a][j] == b
}

/// Whether a list of positions is a closed walk: each position has an arc
/// to the next one, and the last one has an arc to the first.
pub open spec fn is_circuit(g: Seq<Seq<usize>>, c: Seq<usize>) -> bool {
    &&& c.len() >= 1
    &&& forall|i: int| 0 <= i < c.len() - 1 ==> is_arc(g, #[trigger] c[i] as int, c[i + 1] as int)
    &&& is_arc(g, c[c.len() - 1] as int, c[0] as int)
}

/// Whether every reported list is a closed walk that visits no position
/// twice.
pub open spec fn circuits_ok(g: Seq<Seq<usize>>, cycles: Seq<Seq<usize>>) -> bool {
    forall|k: int|
        0 <= k < cycles.len() ==> is_circuit(g, #[trigger] cycles[k]) && cycles[k].no_duplicates()
}

/// Whether some reported list starts at `from` and ends at `to`.
pub open spec fn reported(cycles: Seq<Seq<usize>>, from: int, to: int) -> bool {
    exists|k: int|
        0 <= k < cycles.len() && (#[trigger] cycles[k]).len() >= 1 && cycles[k][0] == from
            && cycles[k][cycles[k].len() - 1] == to
}

/// Whether every arc either closes a reported list or leads to a position
/// of lower rank.
pub open spec fn arcs_settled(g: Seq<Seq<usize>>, cycles: Seq<Seq<usize>>, rank: Seq<nat>) -> bool {
    &&& rank.len() == g.len()
    &&& forall|u: int, j: int|
        0 <= u < g.len() && 0 <= j < g[u].len() ==> reported(cycles, (#[trigger] g[u][j]) as int, u)
            || rank[g[u][j] as int] < rank[u]
}

/// Whether no row lists a position twice.
pub open spec fn rows_distinct(g: Seq<Seq<usize>>) -> bool {
    forall|a: int, i: int, j: int|
        0 <= a < g.len() && 0 <= i < j < g[a].len() ==> #[trigger] g[a][i] != #[trigger] g[a][j]
}

/// Whether a list holds a position.
pub open spec fn holds(c: Seq<usize>, x: usize) -> bool {
    exists|i: int| 0 <= i < c.len() && #[trigger] c[i] == x
}

/// Whether two lists hold the same positions.
pub open spec fn same_members(a: Seq<usize>, b: Seq<usize>) -> bool {
    &&& forall|i: int| 0 <= i < a.len() ==> holds(b, #[trigger] a[i])
    &&& forall|j: int| 0 <= j < b.len() ==> holds(a, #[trigger] b[j])
}

/// Whether no two reported lists hold the same positions. Two lists that
/// are the same cycle, begun at the same or at another position, hold the
/// same positions: so no cycle is reported twice.
pub open spec fn members_differ(cycles: Seq<Seq<usize>>) -> bool {
    forall|k1: int, k2: int|
        0 <= k1 < k2 < cycles.len() ==> !same_members(#[trigger] cycles[k1], #[trigger] cycles[k2])
}

/// The position after `i` on a closed walk.
pub open spec fn next_at(x: Seq<usize>, i: int) -> usize {
    if i + 1 < x.len() {
        x[i + 1]
    } else {
        x[0]
    }
}

proof fn lemma_rank_descends(
    g: Seq<Seq<usize>>,
    cycles: Seq<Seq<usize>>,
    rank: Seq<nat>,
    x: Seq<usize>,
    m: int,
)
    requires
        graph_ok(g),
        arcs_settled(g, cycles, rank),
        is_circuit(g, x),
        0 <= m < x.len(),
        forall|i: int| 0 <= i < m ==> !reported(cycles, x[i + 1] as int, #[trigger] x[i] as int),
    ensures
        rank[x[m] as int] + m <= rank[x[0] as int],
    decreases m,
{
    if m > 0 {
        lemma_rank_descends(g, cycles, rank, x, m - 1);
        let u = x[m - 1] as int;
        assert(is_arc(g, u, x[m] as int));
        let j = choose|j: int| 0 <= j < g[u].len() && #[trigger] g[u][j] == x[m];
        assert(reported(cycles, g[u][j] as int, u) || rank[g[u][j] as int] < rank[u]);
        assert(!reported(cycles, x[m - 1 + 1] as int, x[m - 1] as int));
    }
}

/// On every closed walk of a searched graph some arc closes a reported
/// list: ranks cannot fall all the way round.
pub proof fn lemma_circuit_closed(
    g: Seq<Seq<usize>>,
    cycles: Seq<Seq<usize>>,
    rank: Seq<nat>,
    x: Seq<usize>,
) -> (i: int)
    requires
        graph_ok(g),
        arcs_settled(g, cycles, rank),
        is_circuit(g, x),
    ensures
        0 <= i < x.len(),
        reported(cycles, next_at(x, i) as int, x[i] as int),
{
    let last = x.len() - 1;
    if exists|i: int| 0 <= i < last && reported(cycles, x[i + 1] as int, #[trigger] x[i] as int) {
        choose|i: int| 0 <= i < last && reported(cycles, x[i + 1] as int, #[trigger] x[i] as int)
    } else {
        lemma_rank_descends(g, cycles, rank, x, last);
        let u = x[last] as int;
        assert(is_arc(g, u, x[0] as int));
        let j = choose|j: int| 0 <= j < g[u].len() && #[trigger] g[u][j] == x[0];
        assert(reported(cycles, g[u][j] as int, u) || rank[g[u][j] as int] < rank[u]);
        last
    }
}

const WHITE: u8 = 0;

const GRAY: u8 = 1;

const BLACK: u8 = 2;

/// The state of a search.
pub struct Search {
    pub color: Seq<u8>,
    pub cursor: Seq<usize>,
    pub pos: Seq<usize>,
    pub stack: Seq<usize>,
    pub cycles: Seq<Seq<usize>>,
    pub rank: Seq<nat>,
    pub time: nat,
}

spec fn shape_ok(g: Seq<Seq<usize>>, s: Search) -> bool {
    &&& s.color.len() == g.len()
    &&& s.cursor.len() == g.len()
    &&& s.pos.len() == g.len()
    &&& s.rank.len() == g.len()
    &&& forall|u: int|
        0 <= u < g.len() ==> (#[trigger] s.color[u]) <= 2 && s.cursor[u] <= g[u].len() && (s.color[u]
            == WHITE ==> s.cursor[u] == 0) && (s.color[u] == BLACK ==> s.rank[u] < s.time)
}

spec fn stack_ok(g: Seq<Seq<usize>>, s: Search) -> bool {
    &&& forall|i: int|
        0 <= i < s.stack.len() ==> (#[trigger] s.stack[i]) < g.len() && s.color[s.stack[i] as int]
            == GRAY && s.pos[s.stack[i] as int] == i
    &&& forall|u: int|
        0 <= u < g.len() && #[trigger] s.color[u] == GRAY ==> s.pos[u] < s.stack.len()
            && s.stack[s.pos[u] as int] == u
    &&& forall|i: int|
        0 <= i < s.stack.len() - 1 ==> s.cursor[(#[trigger] s.stack[i]) as int] >= 1 && g[s.stack[i] as int][s.cursor[s.stack[i] as int]
            - 1] == s.stack[i + 1]
}

spec fn arc_open(s: Search, u: int, j: int, v: int) -> bool {
    j == s.cursor[u] - 1 && s.pos[u] + 1 < s.stack.len() && s.stack[s.pos[u] + 1] == v
}

spec fn arcs_ok(g: Seq<Seq<usize>>, s: Search) -> bool {
    &&& forall|u: int, j: int|
        0 <= u < g.len() && 0 <= j < g[u].len() && s.color[u] == BLACK ==> reported(
            s.cycles,
            (#[trigger] g[u][j]) as int,
            u,
        ) || (s.color[g[u][j] as int] == BLACK && s.rank[g[u][j] as int] < s.rank[u])
    &&& forall|u: int, j: int|
        0 <= u < g.len() && 0 <= j < s.cursor[u] && s.color[u] == GRAY ==> reported(
            s.cycles,
            (#[trigger] g[u][j]) as int,
            u,
        ) || s.color[g[u][j] as int] == BLACK || arc_open(s, u, j, g[u][j] as int)
}

spec fn search_ok(g: Seq<Seq<usize>>, s: Search) -> bool {
    &&& graph_ok(g)
    &&& shape_ok(g, s)
    &&& stack_ok(g, s)
    &&& arcs_ok(g, s)
    &&& circuits_ok(g, s.cycles)
}

/// The arcs still to walk and the positions still to finish, among the
/// first `k` positions.
spec fn work(g: Seq<Seq<usize>>, color: Seq<u8>, cursor: Seq<usize>, k: int) -> int
    decreases k,
{
    if k <= 0 {
        0
    } else {
        work(g, color, cursor, k - 1) + work_at(g, color, cursor, k - 1)
    }
}

spec fn work_at(g: Seq<Seq<usize>>, color: Seq<u8>, cursor: Seq<usize>, u: int) -> int {
    g[u].len() - cursor[u] + if color[u] == BLACK {
        0int
    } else {
        1int
    }
}

proof fn lemma_work_nonnegative(g: Seq<Seq<usize>>, color: Seq<u8>, cursor: Seq<usize>, k: int)
    requires
        0 <= k <= g.len(),
        forall|u: int| 0 <= u < g.len() ==> #[trigger] work_at(g, color, cursor, u) >= 0,
    ensures
        work(g, color, cursor, k) >= 0,
    decreases k,
{
    if k > 0 {
        lemma_work_nonnegative(g, color, cursor, k - 1);
    }
}

proof fn lemma_work_decreases(
    g: Seq<Seq<usize>>,
    color: Seq<u8>,
    cursor: Seq<usize>,
    color2: Seq<u8>,
    cursor2: Seq<usize>,
    u: int,
    k: int,
)
    requires
        0 <= k <= g.len(),
        forall|i: int|
            0 <= i < k ==> #[trigger] work_at(g, color2, cursor2, i) <= work_at(g, color, cursor, i),
    ensures
        work(g, color2, cursor2, k) <= work(g, color, cursor, k),
        0 <= u < k && work_at(g, color2, cursor2, u) < work_at(g, color, cursor, u) ==> work(
            g,
            color2,
            cursor2,
            k,
        ) < work(g, color, cursor, k),
    decreases k,
{
    if k > 0 {
        lemma_work_decreases(g, color, cursor, color2, cursor2, u, k - 1);
        assert(work_at(g, color2, cursor2, k - 1) <= work_at(g, color, cursor, k - 1));
    }
}

/// An arc to a white position: the position joins the path.
proof fn lemma_push(g: Seq<Seq<usize>>, s: Search, u: int, v: int) -> (t: Search)
    requires
        search_ok(g, s),
        s.stack.len() > 0,
        u == s.stack[s.stack.len() - 1],
        s.cursor[u] < g[u].len(),
        v == g[u][s.cursor[u] as int],
        s.color[v] == WHITE,
        s.stack.len() < usize::MAX,
    ensures
        t == (Search {
            color: s.color.update(v, GRAY),
            cursor: s.cursor.update(u, (s.cursor[u] + 1) as usize),
            pos: s.pos.update(v, s.stack.len() as usize),
            stack: s.stack.push(v as usize),
            ..s
        }),
        search_ok(g, t),
{
    let t = Search {
        color: s.color.update(v, GRAY),
        cursor: s.cursor.update(u, (s.cursor[u] + 1) as usize),
        pos: s.pos.update(v, s.stack.len() as usize),
        stack: s.stack.push(v as usize),
        ..s
    };
    let top = s.stack.len() - 1;
    assert(s.color[u] == GRAY);
    assert(u != v);
    assert(s.pos[u] == top);
    assert(g[u].len() <= usize::MAX);
    assert(shape_ok(g, t)) by {
        assert forall|w: int| 0 <= w < g.len() implies (#[trigger] t.color[w]) <= 2 && t.cursor[w]
            <= g[w].len() && (t.color[w] == WHITE ==> t.cursor[w] == 0) && (t.color[w] == BLACK
            ==> t.rank[w] < t.time) by {
            assert(s.color[w] <= 2);
        }
    }
    assert forall|i: int| 0 <= i < t.stack.len() implies (#[trigger] t.stack[i]) < g.len()
        && t.color[t.stack[i] as int] == GRAY && t.pos[t.stack[i] as int] == i by {
        if i < s.stack.len() {
            assert(s.stack[i] != v);
        }
    }
    assert forall|u2: int| 0 <= u2 < g.len() && #[trigger] t.color[u2] == GRAY implies t.pos[u2]
        < t.stack.len() && t.stack[t.pos[u2] as int] == u2 by {
        if u2 != v {
            assert(s.color[u2] == GRAY);
        }
    }
    assert forall|i: int| 0 <= i < t.stack.len() - 1 implies t.cursor[(#[trigger] t.stack[i]) as int]
        >= 1 && g[t.stack[i] as int][t.cursor[t.stack[i] as int] - 1] == t.stack[i + 1] by {
        if i < top {
            assert(s.stack[i] != u) by {
                assert(s.pos[s.stack[i] as int] == i);
            }
        }
    }
    assert(stack_ok(g, t));
    assert forall|u2: int, j: int|
        0 <= u2 < g.len() && 0 <= j < g[u2].len() && t.color[u2] == BLACK implies reported(
        t.cycles,
        (#[trigger] g[u2][j]) as int,
        u2,
    ) || (t.color[g[u2][j] as int] == BLACK && t.rank[g[u2][j] as int] < t.rank[u2]) by {
        assert(s.color[u2] == BLACK);
    }
    assert forall|u2: int, j: int|
        0 <= u2 < g.len() && 0 <= j < t.cursor[u2] && t.color[u2] == GRAY implies reported(
        t.cycles,
        (#[trigger] g[u2][j]) as int,
        u2,
    ) || t.color[g[u2][j] as int] == BLACK || arc_open(t, u2, j, g[u2][j] as int) by {
        if u2 == v {
        } else if u2 == u {
            if j == s.cursor[u] {
                assert(arc_open(t, u2, j, g[u2][j] as int));
            } else {
                assert(!arc_open(s, u2, j, g[u2][j] as int));
            }
        } else {
            assert(s.color[u2] == GRAY);
            if arc_open(s, u2, j, g[u2][j] as int) {
                assert(arc_open(t, u2, j, g[u2][j] as int));
            }
        }
    }
    t
}

/// An arc to a black position: nothing to do but to move on.
proof fn lemma_pass(g: Seq<Seq<usize>>, s: Search, u: int, v: int) -> (t: Search)
    requires
        search_ok(g, s),
        s.stack.len() > 0,
        u == s.stack[s.stack.len() - 1],
        s.cursor[u] < g[u].len(),
        v == g[u][s.cursor[u] as int],
        s.color[v] == BLACK,
    ensures
        t == (Search { cursor: s.cursor.update(u, (s.cursor[u] + 1) as usize), ..s }),
        search_ok(g, t),
{
    let t = Search { cursor: s.cursor.update(u, (s.cursor[u] + 1) as usize), ..s };
    let top = s.stack.len() - 1;
    assert(s.color[u] == GRAY);
    assert(s.pos[u] == top);
    assert forall|i: int| 0 <= i < t.stack.len() - 1 implies t.cursor[(#[trigger] t.stack[i]) as int]
        >= 1 && g[t.stack[i] as int][t.cursor[t.stack[i] as int] - 1] == t.stack[i + 1] by {
        assert(s.stack[i] != u) by {
            assert(s.pos[s.stack[i] as int] == i);
        }
    }
    assert forall|u2: int, j: int|
        0 <= u2 < g.len() && 0 <= j < t.cursor[u2] && t.color[u2] == GRAY implies reported(
        t.cycles,
        (#[trigger] g[u2][j]) as int,
        u2,
    ) || t.color[g[u2][j] as int] == BLACK || arc_open(t, u2, j, g[u2][j] as int) by {
        if u2 == u {
            if j < s.cursor[u] {
                assert(!arc_open(s, u2, j, g[u2][j] as int));
            }
        } else {
            if arc_open(s, u2, j, g[u2][j] as int) {
                assert(arc_open(t, u2, j, g[u2][j] as int));
            }
        }
    }
    t
}

/// An arc to a grey position: the path from there to here is a cycle.
proof fn lemma_report(g: Seq<Seq<usize>>, s: Search, u: int, v: int) -> (t: Search)
    requires
        search_ok(g, s),
        s.stack.len() > 0,
        u == s.stack[s.stack.len() - 1],
        s.cursor[u] < g[u].len(),
        v == g[u][s.cursor[u] as int],
        s.color[v] == GRAY,
    ensures
        t == (Search {
            cursor: s.cursor.update(u, (s.cursor[u] + 1) as usize),
            cycles: s.cycles.push(s.stack.subrange(s.pos[v] as int, s.stack.len() as int)),
            ..s
        }),
        search_ok(g, t),
{
    let c = s.stack.subrange(s.pos[v] as int, s.stack.len() as int);
    let t = Search {
        cursor: s.cursor.update(u, (s.cursor[u] + 1) as usize),
        cycles: s.cycles.push(c),
        ..s
    };
    let top = s.stack.len() - 1;
    let p = s.pos[v] as int;
    assert(s.color[u] == GRAY);
    assert(s.pos[u] == top);
    assert(c[0] == v);
    assert(c[c.len() - 1] == u);
    assert forall|i: int| 0 <= i < c.len() - 1 implies is_arc(
        g,
        #[trigger] c[i] as int,
        c[i + 1] as int,
    ) by {
        let a = s.stack[p + i] as int;
        assert(g[a][s.cursor[a] - 1] == s.stack[p + i + 1]);
    }
    assert(is_arc(g, u, v)) by {
        assert(g[u][s.cursor[u] as int] == v);
    }
    assert(is_circuit(g, c));
    assert forall|i: int, j: int| 0 <= i < c.len() && 0 <= j < c.len() && i != j implies c[i]
        != c[j] by {
        assert(s.pos[s.stack[p + i] as int] == p + i);
        assert(s.pos[s.stack[p + j] as int] == p + j);
    }
    assert(c.no_duplicates());
    assert forall|k: int| 0 <= k < t.cycles.len() implies is_circuit(g, #[trigger] t.cycles[k])
        && t.cycles[k].no_duplicates() by {
        if k < s.cycles.len() {
            assert(t.cycles[k] == s.cycles[k]);
        }
    }
    assert forall|a: int, b: int| reported(s.cycles, a, b) implies reported(t.cycles, a, b) by {
        let k = choose|k: int|
            0 <= k < s.cycles.len() && (#[trigger] s.cycles[k]).len() >= 1 && s.cycles[k][0] == a
                && s.cycles[k][s.cycles[k].len() - 1] == b;
        assert(t.cycles[k] == s.cycles[k]);
    }
    assert(reported(t.cycles, v, u)) by {
        assert(t.cycles[s.cycles.len() as int] == c);
    }
    assert forall|i: int| 0 <= i < t.stack.len() - 1 implies t.cursor[(#[trigger] t.stack[i]) as int]
        >= 1 && g[t.stack[i] as int][t.cursor[t.stack[i] as int] - 1] == t.stack[i + 1] by {
        assert(s.stack[i] != u) by {
            assert(s.pos[s.stack[i] as int] == i);
        }
    }
    assert forall|u2: int, j: int|
        0 <= u2 < g.len() && 0 <= j < g[u2].len() && t.color[u2] == BLACK implies reported(
        t.cycles,
        (#[trigger] g[u2][j]) as int,
        u2,
    ) || (t.color[g[u2][j] as int] == BLACK && t.rank[g[u2][j] as int] < t.rank[u2]) by {
    }
    assert forall|u2: int, j: int|
        0 <= u2 < g.len() && 0 <= j < t.cursor[u2] && t.color[u2] == GRAY implies reported(
        t.cycles,
        (#[trigger] g[u2][j]) as int,
        u2,
    ) || t.color[g[u2][j] as int] == BLACK || arc_open(t, u2, j, g[u2][j] as int) by {
        if u2 == u {
            if j < s.cursor[u] {
                assert(!arc_open(s, u2, j, g[u2][j] as int));
            }
        } else {
            if arc_open(s, u2, j, g[u2][j] as int) {
                assert(arc_open(t, u2, j, g[u2][j] as int));
            }
        }
    }
    t
}

/// All arcs of the last position of the path are walked: it is done.
proof fn lemma_pop(g: Seq<Seq<usize>>, s: Search, u: int) -> (t: Search)
    requires
        search_ok(g, s),
        s.stack.len() > 0,
        u == s.stack[s.stack.len() - 1],
        s.cursor[u] == g[u].len(),
    ensures
        t == (Search {
            color: s.color.update(u, BLACK),
            stack: s.stack.drop_last(),
            rank: s.rank.update(u, s.time),
            time: s.time + 1,
            ..s
        }),
        search_ok(g, t),
{
    let t = Search {
        color: s.color.update(u, BLACK),
        stack: s.stack.drop_last(),
        rank: s.rank.update(u, s.time),
        time: s.time + 1,
        ..s
    };
    let top = s.stack.len() - 1;
    assert(s.color[u] == GRAY);
    assert(s.pos[u] == top);
    assert forall|i: int| 0 <= i < t.stack.len() implies (#[trigger] t.stack[i]) < g.len()
        && t.color[t.stack[i] as int] == GRAY && t.pos[t.stack[i] as int] == i by {
        assert(t.stack[i] == s.stack[i]);
        assert(s.pos[s.stack[i] as int] == i);
    }
    assert forall|u2: int| 0 <= u2 < g.len() && #[trigger] t.color[u2] == GRAY implies t.pos[u2]
        < t.stack.len() && t.stack[t.pos[u2] as int] == u2 by {
        assert(s.color[u2] == GRAY);
        assert(u2 != u);
    }
    assert forall|i: int| 0 <= i < t.stack.len() - 1 implies t.cursor[(#[trigger] t.stack[i]) as int]
        >= 1 && g[t.stack[i] as int][t.cursor[t.stack[i] as int] - 1] == t.stack[i + 1] by {
        assert(t.stack[i] == s.stack[i]);
        assert(t.stack[i + 1] == s.stack[i + 1]);
    }
    assert(stack_ok(g, t));
    assert forall|u2: int, j: int|
        0 <= u2 < g.len() && 0 <= j < g[u2].len() && t.color[u2] == BLACK implies reported(
        t.cycles,
        (#[trigger] g[u2][j]) as int,
        u2,
    ) || (t.color[g[u2][j] as int] == BLACK && t.rank[g[u2][j] as int] < t.rank[u2]) by {
        let v = g[u2][j] as int;
        if u2 == u {
            assert(!arc_open(s, u, j, v));
            if !reported(s.cycles, v, u) {
                assert(s.color[v] == BLACK);
                assert(v != u);
            }
        } else {
            assert(s.color[u2] == BLACK);
            if !reported(s.cycles, v, u2) {
                assert(v != u);
            }
        }
    }
    assert forall|u2: int, j: int|
        0 <= u2 < g.len() && 0 <= j < t.cursor[u2] && t.color[u2] == GRAY implies reported(
        t.cycles,
        (#[trigger] g[u2][j]) as int,
        u2,
    ) || t.color[g[u2][j] as int] == BLACK || arc_open(t, u2, j, g[u2][j] as int) by {
        let v = g[u2][j] as int;
        assert(s.color[u2] == GRAY);
        assert(u2 != u);
        if arc_open(s, u2, j, v) {
            if s.pos[u2] + 1 == top {
                assert(v == u);
            } else {
                assert(t.stack[s.pos[u2] + 1] == s.stack[s.pos[u2] + 1]);
                assert(arc_open(t, u2, j, v));
            }
        }
    }
    t
}

/// A white position starts a new path.
proof fn lemma_start(g: Seq<Seq<usize>>, s: Search, v: int) -> (t: Search)
    requires
        search_ok(g, s),
        s.stack.len() == 0,
        0 <= v < g.len(),
        s.color[v] == WHITE,
    ensures
        t == (Search {
            color: s.color.update(v, GRAY),
            pos: s.pos.update(v, 0),
            stack: s.stack.push(v as usize),
            ..s
        }),
        search_ok(g, t),
{
    let t = Search {
        color: s.color.update(v, GRAY),
        pos: s.pos.update(v, 0),
        stack: s.stack.push(v as usize),
        ..s
    };
    assert forall|u2: int| 0 <= u2 < g.len() implies #[trigger] s.color[u2] != GRAY by {
        if s.color[u2] == GRAY {
            assert(s.pos[u2] < s.stack.len());
        }
    }
    assert forall|u2: int, j: int|
        0 <= u2 < g.len() && 0 <= j < g[u2].len() && t.color[u2] == BLACK implies reported(
        t.cycles,
        (#[trigger] g[u2][j]) as int,
        u2,
    ) || (t.color[g[u2][j] as int] == BLACK && t.rank[g[u2][j] as int] < t.rank[u2]) by {
        assert(s.color[u2] == BLACK);
    }
    t
}

/// What a search remembers beside its state: for each position that is
/// reached the number at which it was reached, and how many are reached.
pub struct Trace {
    pub reached: Seq<nat>,
    pub count: nat,
}

/// Whether a reported list is a piece of a path of the search: its
/// positions are reached, each later than the one before it, and the arc
/// from its last position to its first is walked.
spec fn traced(g: Seq<Seq<usize>>, s: Search, tr: Trace, c: Seq<usize>) -> bool {
    &&& c.len() >= 1
    &&& forall|i: int| 0 <= i < c.len() ==> (#[trigger] c[i]) < g.len() && s.color[c[i] as int] != WHITE
    &&& forall|i: int, j: int|
        0 <= i < j < c.len() ==> tr.reached[(#[trigger] c[i]) as int] < tr.reached[(
        #[trigger] c[j]) as int]
    &&& exists|j: int|
        0 <= j < s.cursor[c[c.len() - 1] as int] && j < g[c[c.len() - 1] as int].len()
            && #[trigger] g[c[c.len() - 1] as int][j] == c[0]
}

/// Whether two lists begin at the same position and end at the same.
spec fn same_ends(a: Seq<usize>, b: Seq<usize>) -> bool {
    a[0] == b[0] && a[a.len() - 1] == b[b.len() - 1]
}

/// Whether a trace fits a search: the positions of the path were reached
/// one after the other, every reached position before the count, every
/// reported list is a piece of a path, and no two of them have the same
/// ends.
spec fn trace_ok(g: Seq<Seq<usize>>, s: Search, tr: Trace) -> bool {
    &&& tr.reached.len() == g.len()
    &&& forall|i: int, j: int|
        0 <= i < j < s.stack.len() ==> tr.reached[(#[trigger] s.stack[i]) as int] < tr.reached[(
        #[trigger] s.stack[j]) as int]
    &&& forall|x: int| 0 <= x < g.len() && #[trigger] s.color[x] != WHITE ==> tr.reached[x] < tr.count
    &&& forall|k: int| 0 <= k < s.cycles.len() ==> traced(g, s, tr, #[trigger] s.cycles[k])
    &&& forall|k1: int, k2: int|
        0 <= k1 < k2 < s.cycles.len() ==> !same_ends(#[trigger] s.cycles[k1], #[trigger] s.cycles[k2])
}

/// A position that is reached gets the next number.
proof fn lemma_trace_enter(g: Seq<Seq<usize>>, s: Search, tr: Trace, t: Search, v: int) -> (tr2: Trace)
    requires
        search_ok(g, s),
        trace_ok(g, s, tr),
        0 <= v < g.len(),
        s.color[v] == WHITE,
        t.color == s.color.update(v, GRAY),
        t.stack == s.stack.push(v as usize),
        t.cycles == s.cycles,
        forall|x: int| 0 <= x < g.len() ==> s.cursor[x] <= #[trigger] t.cursor[x],
        t.cursor.len() == g.len(),
    ensures
        tr2 == (Trace { reached: tr.reached.update(v, tr.count), count: tr.count + 1 }),
        trace_ok(g, t, tr2),
{
    let tr2 = Trace { reached: tr.reached.update(v, tr.count), count: tr.count + 1 };
    assert forall|i: int| 0 <= i < s.stack.len() implies (#[trigger] s.stack[i]) != v
        && tr.reached[s.stack[i] as int] < tr.count by {
        assert(s.color[s.stack[i] as int] == GRAY);
    }
    assert forall|i: int, j: int| 0 <= i < j < t.stack.len() implies tr2.reached[(
    #[trigger] t.stack[i]) as int] < tr2.reached[(#[trigger] t.stack[j]) as int] by {
        assert(t.stack[i] == s.stack[i]);
        if j < s.stack.len() {
            assert(t.stack[j] == s.stack[j]);
        }
    }
    assert forall|k: int| 0 <= k < t.cycles.len() implies traced(
        g,
        t,
        tr2,
        #[trigger] t.cycles[k],
    ) by {
        let c = s.cycles[k];
        assert(traced(g, s, tr, c));
        let j = choose|j: int|
            0 <= j < s.cursor[c[c.len() - 1] as int] && j < g[c[c.len() - 1] as int].len()
                && #[trigger] g[c[c.len() - 1] as int][j] == c[0];
        assert(s.cursor[c[c.len() - 1] as int] <= t.cursor[c[c.len() - 1] as int]);
        assert(g[c[c.len() - 1] as int][j] == c[0]);
    }
    tr2
}

/// A step that reaches no position and reports nothing keeps the trace.
proof fn lemma_trace_keep(g: Seq<Seq<usize>>, s: Search, tr: Trace, t: Search)
    requires
        search_ok(g, s),
        trace_ok(g, s, tr),
        t.color.len() == g.len(),
        forall|x: int| 0 <= x < g.len() && #[trigger] s.color[x] != WHITE ==> t.color[x] != WHITE,
        forall|x: int| 0 <= x < g.len() && #[trigger] t.color[x] != WHITE ==> s.color[x] != WHITE,
        t.stack == s.stack || (s.stack.len() > 0 && t.stack == s.stack.drop_last()),
        t.cycles == s.cycles,
        t.cursor.len() == g.len(),
        forall|x: int| 0 <= x < g.len() ==> s.cursor[x] <= #[trigger] t.cursor[x],
    ensures
        trace_ok(g, t, tr),
{
    assert forall|i: int, j: int| 0 <= i < j < t.stack.len() implies tr.reached[(
    #[trigger] t.stack[i]) as int] < tr.reached[(#[trigger] t.stack[j]) as int] by {
        assert(t.stack[i] == s.stack[i]);
        assert(t.stack[j] == s.stack[j]);
    }
    assert forall|k: int| 0 <= k < t.cycles.len() implies traced(
        g,
        t,
        tr,
        #[trigger] t.cycles[k],
    ) by {
        let c = s.cycles[k];
        assert(traced(g, s, tr, c));
        let j = choose|j: int|
            0 <= j < s.cursor[c[c.len() - 1] as int] && j < g[c[c.len() - 1] as int].len()
                && #[trigger] g[c[c.len() - 1] as int][j] == c[0];
        assert(s.cursor[c[c.len() - 1] as int] <= t.cursor[c[c.len() - 1] as int]);
        assert(g[c[c.len() - 1] as int][j] == c[0]);
    }
}

/// A report of the path from `v` to `u` is traced, and no earlier report
/// begins and ends as it does.
proof fn lemma_trace_report(g: Seq<Seq<usize>>, s: Search, tr: Trace, t: Search, u: int, v: int)
    requires
        search_ok(g, s),
        trace_ok(g, s, tr),
        rows_distinct(g),
        s.stack.len() > 0,
        u == s.stack[s.stack.len() - 1],
        s.cursor[u] < g[u].len(),
        v == g[u][s.cursor[u] as int],
        s.color[v] == GRAY,
        t == (Search {
            cursor: s.cursor.update(u, (s.cursor[u] + 1) as usize),
            cycles: s.cycles.push(s.stack.subrange(s.pos[v] as int, s.stack.len() as int)),
            ..s
        }),
    ensures
        trace_ok(g, t, tr),
{
    let c = s.stack.subrange(s.pos[v] as int, s.stack.len() as int);
    let p = s.pos[v] as int;
    let j0 = s.cursor[u] as int;
    assert(s.color[u] == GRAY);
    assert(g[u].len() <= usize::MAX);
    assert(c[0] == v);
    assert(c[c.len() - 1] == u);
    assert(traced(g, t, tr, c)) by {
        assert forall|i: int| 0 <= i < c.len() implies (#[trigger] c[i]) < g.len()
            && t.color[c[i] as int] != WHITE by {
            assert(c[i] == s.stack[p + i]);
            assert(s.color[s.stack[p + i] as int] == GRAY);
        }
        assert forall|i: int, j: int| 0 <= i < j < c.len() implies tr.reached[(
        #[trigger] c[i]) as int] < tr.reached[(#[trigger] c[j]) as int] by {
            assert(c[i] == s.stack[p + i]);
            assert(c[j] == s.stack[p + j]);
        }
        assert(0 <= j0 < t.cursor[u] && g[u][j0] == c[0]);
    }
    assert forall|k: int| 0 <= k < t.cycles.len() implies traced(
        g,
        t,
        tr,
        #[trigger] t.cycles[k],
    ) by {
        if k < s.cycles.len() {
            let d = s.cycles[k];
            assert(t.cycles[k] == d);
            assert(traced(g, s, tr, d));
            let j = choose|j: int|
                0 <= j < s.cursor[d[d.len() - 1] as int] && j < g[d[d.len() - 1] as int].len()
                    && #[trigger] g[d[d.len() - 1] as int][j] == d[0];
            assert(s.cursor[d[d.len() - 1] as int] <= t.cursor[d[d.len() - 1] as int]);
            assert(g[d[d.len() - 1] as int][j] == d[0]);
        } else {
            assert(t.cycles[k] == c);
        }
    }
    assert forall|k1: int, k2: int| 0 <= k1 < k2 < t.cycles.len() implies !same_ends(
        #[trigger] t.cycles[k1],
        #[trigger] t.cycles[k2],
    ) by {
        assert(t.cycles[k1] == s.cycles[k1]);
        if k2 < s.cycles.len() {
            assert(t.cycles[k2] == s.cycles[k2]);
        } else {
            let d = s.cycles[k1];
            assert(t.cycles[k2] == c);
            assert(traced(g, s, tr, d));
            if same_ends(d, c) {
                let j = choose|j: int|
                    0 <= j < s.cursor[d[d.len() - 1] as int] && j < g[d[d.len() - 1] as int].len()
                        && #[trigger] g[d[d.len() - 1] as int][j] == d[0];
                assert(g[u][j] == v);
                assert(g[u][j0] == v);
                assert(j < j0);
            }
        }
    }
}

/// Lists that are traced and hold the same positions begin and end at the
/// same position: the first position of a traced list is the one that was
/// reached first, the last the one that was reached last.
proof fn lemma_traced_members(
    g: Seq<Seq<usize>>,
    s: Search,
    tr: Trace,
    a: Seq<usize>,
    b: Seq<usize>,
)
    requires
        traced(g, s, tr, a),
        traced(g, s, tr, b),
        same_members(a, b),
    ensures
        same_ends(a, b),
{
    let la = a.len() - 1;
    let lb = b.len() - 1;
    // first positions
    assert(holds(a, b[0]));
    let i = choose|i: int| 0 <= i < a.len() && #[trigger] a[i] == b[0];
    assert(holds(b, a[0]));
    let j = choose|j: int| 0 <= j < b.len() && #[trigger] b[j] == a[0];
    if i > 0 {
        assert(tr.reached[a[0] as int] < tr.reached[a[i] as int]);
        if j > 0 {
            assert(tr.reached[b[0] as int] < tr.reached[b[j] as int]);
        }
        assert(false);
    }
    // last positions
    assert(holds(a, b[lb]));
    let i2 = choose|i: int| 0 <= i < a.len() && #[trigger] a[i] == b[lb];
    assert(holds(b, a[la]));
    let j2 = choose|j: int| 0 <= j < b.len() && #[trigger] b[j] == a[la];
    if i2 < la {
        assert(tr.reached[a[i2] as int] < tr.reached[a[la] as int]);
        if j2 < lb {
            assert(tr.reached[b[j2] as int] < tr.reached[b[lb] as int]);
        }
        assert(false);
    }
}

/// No two reports of a traced search hold the same positions.
proof fn lemma_trace_differ(g: Seq<Seq<usize>>, s: Search, tr: Trace)
    requires
        trace_ok(g, s, tr),
    ensures
        members_differ(s.cycles),
{
    assert forall|k1: int, k2: int| 0 <= k1 < k2 < s.cycles.len() implies !same_members(
        #[trigger] s.cycles[k1],
        #[trigger] s.cycles[k2],
    ) by {
        if same_members(s.cycles[k1], s.cycles[k2]) {
            assert(traced(g, s, tr, s.cycles[k1]));
            assert(traced(g, s, tr, s.cycles[k2]));
            lemma_traced_members(g, s, tr, s.cycles[k1], s.cycles[k2]);
        }
    }
}

/// The rows of a graph with each position listed once in its row: where a
/// row lists a position again, the later entries are left out. The graph
/// keeps its arcs.
pub(crate) fn distinct_rows(adj: &Vec<Vec<usize>>) -> (out: Vec<Vec<usize>>)
    requires
        graph_ok(rows(adj@)),
    ensures
        out.len() == adj.len(),
        graph_ok(rows(out@)),
        rows_distinct(rows(out@)),
        forall|a: int, b: int| is_arc(rows(out@), a, b) <==> is_arc(rows(adj@), a, b),
{
    let n = adj.len();
    let ghost g = rows(adj@);
    let mut seen: Vec<usize> = Vec::new();
    let mut i: usize = 0;
    while i < n
        invariant
            i <= n,
            seen.len() == i,
            forall|x: int| 0 <= x < i ==> seen[x] == 0,
        decreases n - i,
    {
        seen.push(0);
        i = i + 1;
    }
    let mut out: Vec<Vec<usize>> = Vec::new();
    let mut a: usize = 0;
    while a < n
        invariant
            a <= n,
            n == adj.len(),
            g == rows(adj@),
            graph_ok(g),
            seen.len() == n,
            out.len() == a,
            forall|x: int| 0 <= x < n ==> seen[x] <= a,
            forall|r: int| 0 <= r < a ==> row_kept(g[r], #[trigger] rows(out@)[r]),
        decreases n - a,
    {
        let mut row: Vec<usize> = Vec::new();
        let mut j: usize = 0;
        assert(g[a as int] == adj@[a as int]@);
        while j < adj[a].len()
            invariant
                a < n,
                n == adj.len(),
                g == rows(adj@),
                graph_ok(g),
                g[a as int] == adj@[a as int]@,
                seen.len() == n,
                j <= adj[a as int].len(),
                row.len() <= j,
                forall|x: int| 0 <= x < n ==> seen[x] <= a + 1,
                forall|x: int| 0 <= x < n ==> (seen[x] == a + 1 <==> holds(row@, x as usize)),
                forall|i: int, k: int| 0 <= i < k < row.len() ==> row@[i] != row@[k],
                forall|i: int| 0 <= i < row.len() ==> holds(g[a as int].take(j as int), #[trigger] row@[i]),
                forall|k: int| 0 <= k < j ==> holds(row@, #[trigger] g[a as int][k]),
            decreases adj[a as int].len() - j,
        {
            let v = adj[a][j];
            let ghost before = row@;
            assert(g[a as int][j as int] == v);
            assert(v < n);
            proof {
                assert forall|i: int| 0 <= i < before.len() implies holds(
                    g[a as int].take(j + 1),
                    #[trigger] before[i],
                ) by {
                    assert(holds(g[a as int].take(j as int), before[i]));
                    let w = choose|w: int|
                        0 <= w < g[a as int].take(j as int).len() && #[trigger] g[a as int].take(
                            j as int,
                        )[w] == before[i];
                    assert(g[a as int].take(j + 1)[w] == before[i]);
                }
            }
            if seen[v] != a + 1 {
                seen[v] = a + 1;
                row.push(v);
                proof {
                    assert(!holds(before, v));
                    assert(row@[before.len() as int] == v);
                    assert forall|x: int| 0 <= x < n implies (seen[x] == a + 1 <==> holds(
                        row@,
                        x as usize,
                    )) by {
                        if holds(before, x as usize) {
                            let w = choose|w: int| 0 <= w < before.len() && #[trigger] before[w] == x;
                            assert(row@[w] == x);
                        }
                        if holds(row@, x as usize) && x != v {
                            let w = choose|w: int| 0 <= w < row@.len() && #[trigger] row@[w] == x;
                            assert(before[w] == x);
                        }
                    }
                    assert forall|i: int, k: int| 0 <= i < k < row.len() implies row@[i]
                        != row@[k] by {
                        if k == before.len() {
                            assert(row@[i] == before[i]);
                            if before[i] == v {
                                assert(holds(before, v));
                            }
                        } else {
                            assert(row@[i] == before[i] && row@[k] == before[k]);
                        }
                    }
                    assert forall|i: int| 0 <= i < row.len() implies holds(
                        g[a as int].take(j + 1),
                        #[trigger] row@[i],
                    ) by {
                        if i < before.len() {
                            assert(row@[i] == before[i]);
                        } else {
                            assert(g[a as int].take(j + 1)[j as int] == v);
                        }
                    }
                    assert forall|k: int| 0 <= k < j + 1 implies holds(
                        row@,
                        #[trigger] g[a as int][k],
                    ) by {
                        if k < j {
                            assert(holds(before, g[a as int][k]));
                            let w = choose|w: int|
                                0 <= w < before.len() && #[trigger] before[w] == g[a as int][k];
                            assert(row@[w] == g[a as int][k]);
                        }
                    }
                }
            } else {
                proof {
                    assert(holds(row@, v));
                }
            }
            j = j + 1;
        }
        let ghost kept = row@;
        let ghost earlier = rows(out@);
        out.push(row);
        proof {
            assert(g[a as int].take(j as int) =~= g[a as int]);
            assert(rows(out@)[a as int] == kept);
            assert(row_kept(g[a as int], kept));
            assert forall|r: int| 0 <= r < a + 1 implies row_kept(g[r], #[trigger] rows(out@)[r]) by {
                if r < a {
                    assert(rows(out@)[r] == earlier[r]);
                }
            }
        }
        a = a + 1;
    }
    proof {
        let h = rows(out@);
        assert forall|r: int| 0 <= r < h.len() implies (#[trigger] h[r]).len() <= usize::MAX by {
            assert(h[r] == out@[r]@);
            assert(out@[r].len() <= usize::MAX);
        }
        assert forall|r: int, k: int| 0 <= r < h.len() && 0 <= k < h[r].len() implies (
        #[trigger] h[r][k]) < h.len() by {
            assert(row_kept(g[r], h[r]));
            assert(holds(g[r], h[r][k]));
        }
        assert forall|r: int, i: int, k: int|
            0 <= r < h.len() && 0 <= i < k < h[r].len() implies #[trigger] h[r][i]
            != #[trigger] h[r][k] by {
            assert(row_kept(g[r], h[r]));
        }
        assert forall|x: int, y: int| is_arc(h, x, y) <==> is_arc(g, x, y) by {
            if is_arc(h, x, y) {
                let k = choose|k: int| 0 <= k < h[x].len() && #[trigger] h[x][k] == y;
                assert(row_kept(g[x], h[x]));
                assert(holds(g[x], h[x][k]));
            }
            if is_arc(g, x, y) {
                let k = choose|k: int| 0 <= k < g[x].len() && #[trigger] g[x][k] == y;
                assert(row_kept(g[x], h[x]));
                assert(holds(h[x], g[x][k]));
            }
        }
    }
    out
}

/// Whether a row lists the positions of another row, each of them once.
spec fn row_kept(row: Seq<usize>, kept: Seq<usize>) -> bool {
    &&& forall|i: int, k: int| 0 <= i < k < kept.len() ==> kept[i] != kept[k]
    &&& forall|i: int| 0 <= i < kept.len() ==> holds(row, #[trigger] kept[i])
    &&& forall|k: int| 0 <= k < row.len() ==> holds(kept, #[trigger] row[k])
}

/// Copies the end of the path, from position `from` on.
fn path_tail(stack: &Vec<usize>, from: usize) -> (c: Vec<usize>)
    requires
        from <= stack.len(),
    ensures
        c@ == stack@.subrange(from as int, stack.len() as int),
{
    let mut c: Vec<usize> = Vec::new();
    let mut i: usize = from;
    while i < stack.len()
        invariant
            from <= i <= stack.len(),
            c@ == stack@.subrange(from as int, i as int),
        decreases stack.len() - i,
    {
        c.push(stack[i]);
        assert(c@ =~= stack@.subrange(from as int, i + 1));
        i = i + 1;
    }
    c
}

/// Searches the whole graph and reports a cycle for every arc that leads
/// back into the current path.
///
/// Every reported list is a closed walk without a repeated position. The
/// ghost result ranks the positions so that every arc either leads to a
/// position of lower rank or closes a reported list: the last position of
/// the list is where the arc leaves, the first where it arrives. In a
/// graph whose rows list no position twice, no two reported lists hold the
/// same positions.
pub(crate) fn find_cycles(adj: &Vec<Vec<usize>>) -> (r: (Vec<Vec<usize>>, Ghost<Seq<nat>>))
    requires
        graph_ok(rows(adj@)),
        rows_distinct(rows(adj@)),
    ensures
        circuits_ok(rows(adj@), rows(r.0@)),
        arcs_settled(rows(adj@), rows(r.0@), r.1@),
        members_differ(rows(r.0@)),
{
    let n = adj.len();
    let ghost g = rows(adj@);
    let mut color: Vec<u8> = Vec::new();
    let mut cursor: Vec<usize> = Vec::new();
    let mut pos: Vec<usize> = Vec::new();
    let mut i: usize = 0;
    while i < n
        invariant
            i <= n,
            color.len() == i,
            cursor.len() == i,
            pos.len() == i,
            forall|k: int| 0 <= k < i ==> color[k] == WHITE && cursor[k] == 0,
        decreases n - i,
    {
        color.push(WHITE);
        cursor.push(0);
        pos.push(0);
        i = i + 1;
    }
    let mut stack: Vec<usize> = Vec::new();
    let mut cycles: Vec<Vec<usize>> = Vec::new();
    let ghost mut st = Search {
        color: color@,
        cursor: cursor@,
        pos: pos@,
        stack: stack@,
        cycles: rows(cycles@),
        rank: Seq::new(n as nat, |i: int| 0nat),
        time: 0,
    };
    assert(search_ok(g, st));
    let ghost mut tr = Trace { reached: Seq::new(n as nat, |i: int| 0nat), count: 0 };
    assert(trace_ok(g, st, tr));
    let mut start: usize = 0;
    while start < n
        invariant
            n == adj.len(),
            g == rows(adj@),
            start <= n,
            search_ok(g, st),
            rows_distinct(g),
            trace_ok(g, st, tr),
            st.color == color@,
            st.cursor == cursor@,
            st.pos == pos@,
            st.stack == stack@,
            st.cycles == rows(cycles@),
            stack.len() == 0,
            forall|u: int| 0 <= u < start ==> color[u] == BLACK,
        decreases n - start,
    {
        if color[start] == WHITE {
            proof {
                let before = st;
                st = lemma_start(g, st, start as int);
                tr = lemma_trace_enter(g, before, tr, st, start as int);
            }
            color[start] = GRAY;
            pos[start] = 0;
            stack.push(start);
            while stack.len() > 0
                invariant
                    n == adj.len(),
                    g == rows(adj@),
                    start < n,
                    search_ok(g, st),
                    rows_distinct(g),
                    trace_ok(g, st, tr),
                    st.color == color@,
                    st.cursor == cursor@,
                    st.pos == pos@,
                    st.stack == stack@,
                    st.cycles == rows(cycles@),
                    forall|u: int| 0 <= u < start ==> color[u] == BLACK,
                    color[start as int] != WHITE,
                decreases work(g, color@, cursor@, n as int),
            {
                let u = stack[stack.len() - 1];
                let j = cursor[u];
                let ghost color0 = color@;
                let ghost cursor0 = cursor@;
                assert(st.color[u as int] == GRAY);
                if j < adj[u].len() {
                    let v = adj[u][j];
                    assert(g[u as int][j as int] == v);
                    cursor[u] = j + 1;
                    if color[v] == WHITE {
                        proof {
                            assert(stack@.len() < n) by {
                                lemma_stack_short(g, st, v as int);
                            }
                            let before = st;
                            st = lemma_push(g, st, u as int, v as int);
                            assert(g[u as int].len() <= usize::MAX);
                            tr = lemma_trace_enter(g, before, tr, st, v as int);
                        }
                        color[v] = GRAY;
                        pos[v] = stack.len();
                        stack.push(v);
                    } else if color[v] == GRAY {
                        let c = path_tail(&stack, pos[v]);
                        proof {
                            let before = st;
                            st = lemma_report(g, st, u as int, v as int);
                            lemma_trace_report(g, before, tr, st, u as int, v as int);
                        }
                        cycles.push(c);
                        assert(rows(cycles@) =~= st.cycles);
                    } else {
                        proof {
                            let before = st;
                            st = lemma_pass(g, st, u as int, v as int);
                            assert(g[u as int].len() <= usize::MAX);
                            lemma_trace_keep(g, before, tr, st);
                        }
                    }
                    proof {
                        assert forall|i: int| 0 <= i < n implies #[trigger] work_at(
                            g,
                            color@,
                            cursor@,
                            i,
                        ) <= work_at(g, color0, cursor0, i) by {}
                        assert(work_at(g, color@, cursor@, u as int) < work_at(
                            g,
                            color0,
                            cursor0,
                            u as int,
                        ));
                        lemma_work_decreases(g, color0, cursor0, color@, cursor@, u as int, n as int);
                        assert forall|w: int| 0 <= w < g.len() implies #[trigger] work_at(
                            g,
                            color@,
                            cursor@,
                            w,
                        ) >= 0 by {
                            assert(st.color[w] <= 2);
                        }
                        lemma_work_nonnegative(g, color@, cursor@, n as int);
                    }
                } else {
                    proof {
                        let before = st;
                        st = lemma_pop(g, st, u as int);
                        lemma_trace_keep(g, before, tr, st);
                    }
                    color[u] = BLACK;
                    stack.pop();
                    assert(stack@ =~= st.stack);
                    proof {
                        assert forall|i: int| 0 <= i < n implies #[trigger] work_at(
                            g,
                            color@,
                            cursor@,
                            i,
                        ) <= work_at(g, color0, cursor0, i) by {}
                        assert(work_at(g, color@, cursor@, u as int) < work_at(
                            g,
                            color0,
                            cursor0,
                            u as int,
                        ));
                        lemma_work_decreases(g, color0, cursor0, color@, cursor@, u as int, n as int);
                        assert forall|w: int| 0 <= w < g.len() implies #[trigger] work_at(
                            g,
                            color@,
                            cursor@,
                            w,
                        ) >= 0 by {
                            assert(st.color[w] <= 2);
                        }
                        lemma_work_nonnegative(g, color@, cursor@, n as int);
                    }
                }
            }
            proof {
                assert(color[start as int] == BLACK) by {
                    if color[start as int] == GRAY {
                        assert(st.pos[start as int] < st.stack.len());
                    }
                }
            }
        }
        start = start + 1;
    }
    proof {
        assert forall|u: int, j: int| 0 <= u < g.len() && 0 <= j < g[u].len() implies reported(
            st.cycles,
            (#[trigger] g[u][j]) as int,
            u,
        ) || st.rank[g[u][j] as int] < st.rank[u] by {
            assert(st.color[u] == BLACK);
        }
        lemma_trace_differ(g, st, tr);
    }
    (cycles, Ghost(st.rank))
}

/// A path that can still grow is shorter than the graph.
proof fn lemma_stack_short(g: Seq<Seq<usize>>, s: Search, v: int)
    requires
        search_ok(g, s),
        0 <= v < g.len(),
        s.color[v] == WHITE,
    ensures
        s.stack.len() < g.len(),
{
    // The positions on the path are pairwise distinct and none of them is `v`.
    let stack_set = s.stack.to_set();
    let all = Set::new(|x: usize| x < g.len());
    assert(s.stack.no_duplicates()) by {
        assert forall|i: int, j: int|
            0 <= i < s.stack.len() && 0 <= j < s.stack.len() && i != j implies s.stack[i]
            != s.stack[j] by {
            assert(s.pos[s.stack[i] as int] == i);
            assert(s.pos[s.stack[j] as int] == j);
        }
    }
    s.stack.unique_seq_to_set();
    lemma_below_set_size(g.len());
    assert(stack_set.subset_of(all.remove(v as usize))) by {
        assert forall|x: usize| stack_set.contains(x) implies all.remove(v as usize).contains(
            x,
        ) by {
            let i = choose|i: int| 0 <= i < s.stack.len() && s.stack[i] == x;
            assert(s.color[s.stack[i] as int] == GRAY);
        }
    }
    vstd::set_lib::lemma_len_subset(stack_set, all.remove(v as usize));
}

/// There are `n` positions below `n`.
proof fn lemma_below_set_size(n: nat)
    requires
        n <= usize::MAX,
    ensures
        Set::new(|x: usize| x < n).finite(),
        Set::new(|x: usize| x < n).len() == n,
    decreases n,
{
    let s = Set::new(|x: usize| x < n);
    if n == 0 {
        assert(s =~= Set::<usize>::empty());
    } else {
        let m = (n - 1) as nat;
        lemma_below_set_size(m);
        let t = Set::new(|x: usize| x < m);
        assert(s =~= t.insert(m as usize));
    }
}

} // verus!
