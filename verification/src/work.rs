//! The work classifier: ready work, blocked issues, epics that can be
//! closed, and stale issues, each derived from a snapshot.
//!
//! The issues of a snapshot are those at the first position of their id.

use vstd::prelude::*;
use vstd::string::*;
use crate::graph::{
    build_adjacency, children, edge_leaves, lemma_children_complete, lemma_children_sound,
    EdgeKind,
};
use crate::index::{build_index, is_first_index, lemma_first_index_unique, lookup};
use crate::ranking::{is_ranking, rank_positions, SortKey};
use crate::depth_first::rows;
use crate::text::{contains_text, has_text, str_eq};
use crate::types::{
    BlockedIssue, BlockedIssueView, Dependency, DependencyView, EpicStatus, EpicStatusView, Issue,
    IssueType, IssueView, SortPolicy, StaleFilter, Status, WorkFilter, WorkFilterView,
};

verus! {

/// The length of the window in which an issue counts as recent: 48 hours,
/// in microseconds.
pub const RECENT_WINDOW_MICROS: i64 = 172_800_000_000;

/// The length of a day in microseconds.
pub const MICROS_PER_DAY: i64 = 86_400_000_000;

/// The first `limit` entries of a list; all of them where `limit` is zero
/// or less.
pub open spec fn limited<A>(s: Seq<A>, limit: int) -> Seq<A> {
    if limit <= 0 || limit >= s.len() {
        s
    } else {
        s.take(limit)
    }
}

/// The issues at the positions of a list.
pub open spec fn at_positions(issues: Seq<IssueView>, order: Seq<usize>) -> Seq<IssueView> {
    Seq::new(order.len(), |i: int| issues[order[i] as int])
}

/// Whether `result` lists the selected issues by ascending key, the earlier
/// position first among equal keys, cut off after `limit` entries.
pub open spec fn is_listing(
    issues: Seq<IssueView>,
    keys: Seq<SortKey>,
    selected: Seq<bool>,
    limit: int,
    result: Seq<IssueView>,
) -> bool {
    exists|order: Seq<usize>| #[trigger]
        is_ranking(keys, selected, order) && result == limited(at_positions(issues, order), limit)
}

/// A count as it is stored: the largest number that fits where the count
/// does not.
pub open spec fn stored_count(n: nat) -> i32 {
    if n > i32::MAX {
        i32::MAX
    } else {
        n as i32
    }
}

/// A count as it is stored.
pub fn count_of(n: usize) -> (c: i32)
    ensures
        c == stored_count(n as nat),
{
    if n > 0x7fff_ffff {
        i32::MAX
    } else {
        n as i32
    }
}

fn list_at(issues: &Vec<Issue>, order: &Vec<usize>, limit: i32) -> (r: Vec<Issue>)
    requires
        forall|i: int| 0 <= i < order.len() ==> (#[trigger] order[i]) < issues.len(),
    ensures
        r.deep_view() == limited(at_positions(issues.deep_view(), order@), limit as int),
{
    let count: usize = if limit <= 0 || limit as usize >= order.len() {
        order.len()
    } else {
        limit as usize
    };
    let mut r: Vec<Issue> = Vec::new();
    let mut i: usize = 0;
    while i < count
        invariant
            i <= count <= order.len(),
            r.len() == i,
            forall|k: int| 0 <= k < order.len() ==> (#[trigger] order[k]) < issues.len(),
            forall|k: int| 0 <= k < i ==> #[trigger] r[k]@ == issues[order[k] as int]@,
        decreases count - i,
    {
        r.push(issues[order[i]].clone());
        i = i + 1;
    }
    assert(r.deep_view() =~= limited(at_positions(issues.deep_view(), order@), limit as int));
    r
}

/// The positions of the issues that block the issue at position `a`: the
/// targets of its `blocks` edges that are issues of the snapshot and not
/// closed, in the order of the edges.
pub open spec fn blockers_at(issues: Seq<IssueView>, deps: Seq<DependencyView>, a: int) -> Seq<usize> {
    children(issues, deps, a, EdgeKind::Blocking, false)
}

/// Whether the issue at position `a` is blocked: it has at least one
/// `blocks` edge to an issue that is not closed.
pub open spec fn blocked_at(issues: Seq<IssueView>, deps: Seq<DependencyView>, a: int) -> bool {
    blockers_at(issues, deps, a).len() > 0
}

/// An issue is blocked exactly when one of the edges is a `blocks` edge
/// from it to an issue of the snapshot that is not closed.
pub proof fn lemma_blocked_iff_edge(issues: Seq<IssueView>, deps: Seq<DependencyView>, a: int)
    requires
        issues.len() <= usize::MAX,
    ensures
        blocked_at(issues, deps, a) <==> exists|k: int|
            0 <= k < deps.len() && edge_leaves(issues, #[trigger] deps[k], a, EdgeKind::Blocking, false),
{
    if blocked_at(issues, deps, a) {
        let e = lemma_children_sound(
            issues,
            deps,
            a,
            EdgeKind::Blocking,
            false,
            deps.len() as int,
            0,
        );
        assert(edge_leaves(issues, deps[e], a, EdgeKind::Blocking, false));
    }
    if exists|k: int|
        0 <= k < deps.len() && edge_leaves(issues, #[trigger] deps[k], a, EdgeKind::Blocking, false) {
        let k = choose|k: int|
            0 <= k < deps.len() && edge_leaves(
                issues,
                #[trigger] deps[k],
                a,
                EdgeKind::Blocking,
                false,
            );
        lemma_children_complete(issues, deps, a, EdgeKind::Blocking, false, deps.len() as int, k);
    }
}

/// Whether an issue passes a work filter: the priority and the assignee
/// asked for, every label of `labels`, and one of `labels_any` if there are
/// any.
pub open spec fn matches_filter(i: IssueView, f: WorkFilterView) -> bool {
    &&& (f.priority is Some ==> i.priority == f.priority->0)
    &&& (f.assignee is Some ==> i.assignee == f.assignee->0)
    &&& (forall|k: int| 0 <= k < f.labels.len() ==> has_text(i.labels, #[trigger] f.labels[k]))
    &&& (f.labels_any.len() > 0 ==> exists|k: int|
        0 <= k < f.labels_any.len() && has_text(i.labels, #[trigger] f.labels_any[k]))
}

/// Whether an issue carries every label of a list.
pub fn has_all_labels(issue: &Issue, labels: &Vec<String>) -> (b: bool)
    ensures
        b == forall|k: int|
            0 <= k < labels.deep_view().len() ==> has_text(
                issue@.labels,
                #[trigger] labels.deep_view()[k],
            ),
{
    let mut k: usize = 0;
    while k < labels.len()
        invariant
            k <= labels.len(),
            forall|m: int| 0 <= m < k ==> has_text(issue@.labels, #[trigger] labels.deep_view()[m]),
        decreases labels.len() - k,
    {
        assert(labels.deep_view()[k as int] == labels[k as int]@);
        if !contains_text(&issue.labels, &labels[k]) {
            return false;
        }
        k = k + 1;
    }
    true
}

/// Whether an issue carries a label of a list.
pub fn has_any_label(issue: &Issue, labels: &Vec<String>) -> (b: bool)
    ensures
        b == exists|k: int|
            0 <= k < labels.deep_view().len() && has_text(
                issue@.labels,
                #[trigger] labels.deep_view()[k],
            ),
{
    let mut k: usize = 0;
    while k < labels.len()
        invariant
            k <= labels.len(),
            forall|m: int| 0 <= m < k ==> !has_text(issue@.labels, #[trigger] labels.deep_view()[m]),
        decreases labels.len() - k,
    {
        assert(labels.deep_view()[k as int] == labels[k as int]@);
        if contains_text(&issue.labels, &labels[k]) {
            return true;
        }
        k = k + 1;
    }
    false
}

/// Whether an issue passes a work filter.
pub fn filter_matches(issue: &Issue, filter: &WorkFilter) -> (b: bool)
    ensures
        b == matches_filter(issue@, filter@),
{
    let priority_ok = match filter.priority {
        Some(p) => issue.priority == p,
        None => true,
    };
    let assignee_ok = match &filter.assignee {
        Some(a) => issue.assignee == *a,
        None => true,
    };
    assert(priority_ok == (filter@.priority is Some ==> issue@.priority == filter@.priority->0));
    assert(assignee_ok == (filter@.assignee is Some ==> issue@.assignee == filter@.assignee->0));
    if !priority_ok || !assignee_ok {
        return false;
    }
    let all = has_all_labels(issue, &filter.labels);
    assert(filter@.labels == filter.labels.deep_view());
    assert(filter@.labels_any == filter.labels_any.deep_view());
    assert(all == (forall|k: int|
        0 <= k < filter@.labels.len() ==> has_text(issue@.labels, #[trigger] filter@.labels[k])));
    if !all {
        return false;
    }
    if filter.labels_any.len() > 0 {
        has_any_label(issue, &filter.labels_any)
    } else {
        true
    }
}

/// Whether the issue at position `a` is ready: it stands for its id, it is
/// open, no issue blocks it, and it passes the filter.
pub open spec fn ready_at(
    issues: Seq<IssueView>,
    deps: Seq<DependencyView>,
    f: WorkFilterView,
    a: int,
) -> bool {
    &&& is_first_index(issues, issues[a].id, a)
    &&& issues[a].status == Status::Open
    &&& !blocked_at(issues, deps, a)
    &&& matches_filter(issues[a], f)
}

/// Whether an issue was created within the 48 hours before `now`.
pub open spec fn is_recent(i: IssueView, now: i64) -> bool {
    now - i.created_at <= RECENT_WINDOW_MICROS
}

/// The key by which ready work is ordered.
///
/// By priority: the lower priority number first, then the earlier creation.
/// By age: the earlier creation first. Hybrid: the recent issues first, by
/// priority, then the older ones by age.
pub open spec fn work_key(i: IssueView, policy: SortPolicy, now: i64) -> SortKey {
    match policy {
        SortPolicy::Priority => SortKey { group: 0, major: i.priority as i64, minor: i.created_at },
        SortPolicy::Oldest => SortKey { group: 0, major: i.created_at, minor: 0 },
        SortPolicy::Hybrid => if is_recent(i, now) {
            SortKey { group: 0, major: i.priority as i64, minor: i.created_at }
        } else {
            SortKey { group: 1, major: i.created_at, minor: 0 }
        },
    }
}

fn key_of(issue: &Issue, policy: SortPolicy, now: i64) -> (k: SortKey)
    ensures
        k == work_key(issue@, policy, now),
{
    match policy {
        SortPolicy::Priority => SortKey {
            group: 0,
            major: issue.priority as i64,
            minor: issue.created_at,
        },
        SortPolicy::Oldest => SortKey { group: 0, major: issue.created_at, minor: 0 },
        SortPolicy::Hybrid => {
            let age: i128 = now as i128 - issue.created_at as i128;
            if age <= RECENT_WINDOW_MICROS as i128 {
                SortKey { group: 0, major: issue.priority as i64, minor: issue.created_at }
            } else {
                SortKey { group: 1, major: issue.created_at, minor: 0 }
            }
        },
    }
}

/// The keys of all positions for ready work.
pub open spec fn work_keys(issues: Seq<IssueView>, policy: SortPolicy, now: i64) -> Seq<SortKey> {
    Seq::new(issues.len(), |a: int| work_key(issues[a], policy, now))
}

/// For each position whether its issue is ready.
pub open spec fn ready_flags(
    issues: Seq<IssueView>,
    deps: Seq<DependencyView>,
    f: WorkFilterView,
) -> Seq<bool> {
    Seq::new(issues.len(), |a: int| ready_at(issues, deps, f, a))
}

fn stands_for_its_id(
    issues: &Vec<Issue>,
    index: &vstd::hash_map::StringHashMap<usize>,
    a: usize,
) -> (b: bool)
    requires
        a < issues.len(),
        crate::index::is_index_of(index@, issues.deep_view()),
    ensures
        b == is_first_index(issues.deep_view(), issues.deep_view()[a as int].id, a as int),
{
    let ghost iv = issues.deep_view();
    assert(iv[a as int] == issues[a as int]@);
    match lookup(index, issues[a].id.as_str(), Ghost(iv)) {
        Some(q) => {
            proof {
                if q != a && is_first_index(iv, iv[a as int].id, a as int) {
                    lemma_first_index_unique(iv, iv[a as int].id, a as int, q as int);
                }
            }
            q == a
        },
        None => {
            assert(iv[a as int].id == issues[a as int].id@);
            false
        },
    }
}

/// Tells for each position of a snapshot whether its issue is ready.
pub fn ready_selection(issues: &Vec<Issue>, deps: &Vec<Dependency>, filter: &WorkFilter) -> (flags:
    Vec<bool>)
    ensures
        flags@ == ready_flags(issues.deep_view(), deps.deep_view(), filter@),
{
    let ghost iv = issues.deep_view();
    let ghost dv = deps.deep_view();
    let index = build_index(issues);
    let blockers = build_adjacency(issues, deps, &index, EdgeKind::Blocking, false);
    let n = issues.len();
    let mut flags: Vec<bool> = Vec::new();
    let mut a: usize = 0;
    while a < n
        invariant
            a <= n,
            n == issues.len(),
            iv == issues.deep_view(),
            dv == deps.deep_view(),
            crate::index::is_index_of(index@, iv),
            crate::graph::is_adjacency(rows(blockers@), iv, dv, EdgeKind::Blocking, false),
            flags.len() == a,
            forall|k: int| 0 <= k < a ==> #[trigger] flags[k] == ready_at(iv, dv, filter@, k),
        decreases n - a,
    {
        let issue = &issues[a];
        assert(iv[a as int] == issue@);
        let first = stands_for_its_id(issues, &index, a);
        let open = match issue.status {
            Status::Open => true,
            _ => false,
        };
        assert(rows(blockers@)[a as int] == blockers@[a as int]@);
        let free = blockers[a].len() == 0;
        let ready = first && open && free && filter_matches(issue, filter);
        flags.push(ready);
        a = a + 1;
    }
    assert(flags@ =~= ready_flags(iv, dv, filter@));
    flags
}

/// Lists the ready work of a snapshot at the time `now`.
///
/// An issue is listed when it is open, has no `blocks` edge to an issue of
/// the snapshot that is not closed, and passes the filter. The list is in
/// the order of the filter's policy and holds at most `limit` issues, all
/// of them where `limit` is zero or less. The `status` of the filter plays
/// no part: ready work is open.
pub fn ready_work(issues: &Vec<Issue>, deps: &Vec<Dependency>, filter: &WorkFilter, now: i64) -> (r:
    Vec<Issue>)
    ensures
        is_listing(
            issues.deep_view(),
            work_keys(issues.deep_view(), filter.sort_policy, now),
            ready_flags(issues.deep_view(), deps.deep_view(), filter@),
            filter.limit as int,
            r.deep_view(),
        ),
{
    let ghost iv = issues.deep_view();
    let flags = ready_selection(issues, deps, filter);
    let n = issues.len();
    let mut keys: Vec<SortKey> = Vec::new();
    let mut a: usize = 0;
    while a < n
        invariant
            a <= n,
            n == issues.len(),
            iv == issues.deep_view(),
            keys.len() == a,
            forall|k: int| 0 <= k < a ==> #[trigger] keys[k] == work_key(iv[k], filter.sort_policy, now),
        decreases n - a,
    {
        assert(iv[a as int] == issues[a as int]@);
        keys.push(key_of(&issues[a], filter.sort_policy, now));
        a = a + 1;
    }
    assert(keys@ =~= work_keys(iv, filter.sort_policy, now));
    let order = rank_positions(&keys, &flags);
    list_at(issues, &order, filter.limit)
}

/// What is reported of the blocked issue at position `a`: the issue, the
/// number of its blockers, and their ids in the order of the edges.
pub open spec fn blocked_entry(
    issues: Seq<IssueView>,
    deps: Seq<DependencyView>,
    a: int,
) -> BlockedIssueView {
    let b = blockers_at(issues, deps, a);
    BlockedIssueView {
        issue: issues[a],
        blocked_by_count: stored_count(b.len()),
        blocked_by: Seq::new(b.len(), |j: int| issues[b[j] as int].id),
    }
}

/// The blocked issues among the first `n` positions, in their order.
pub open spec fn blocked_upto(issues: Seq<IssueView>, deps: Seq<DependencyView>, n: int) -> Seq<
    BlockedIssueView,
>
    decreases n,
{
    if n <= 0 {
        Seq::empty()
    } else {
        let rest = blocked_upto(issues, deps, n - 1);
        if is_first_index(issues, issues[n - 1].id, n - 1) && blocked_at(issues, deps, n - 1) {
            rest.push(blocked_entry(issues, deps, n - 1))
        } else {
            rest
        }
    }
}

fn ids_at(issues: &Vec<Issue>, positions: &Vec<usize>) -> (ids: Vec<String>)
    requires
        forall|j: int| 0 <= j < positions.len() ==> (#[trigger] positions[j]) < issues.len(),
    ensures
        ids.deep_view() == Seq::new(
            positions@.len(),
            |j: int| issues.deep_view()[positions[j] as int].id,
        ),
{
    let mut ids: Vec<String> = Vec::new();
    let mut j: usize = 0;
    while j < positions.len()
        invariant
            j <= positions.len(),
            ids.len() == j,
            forall|m: int| 0 <= m < positions.len() ==> (#[trigger] positions[m]) < issues.len(),
            forall|m: int| 0 <= m < j ==> #[trigger] ids[m]@ == issues[positions[m] as int].id@,
        decreases positions.len() - j,
    {
        ids.push(issues[positions[j]].id.clone());
        j = j + 1;
    }
    assert(ids.deep_view() =~= Seq::new(
        positions@.len(),
        |j: int| issues.deep_view()[positions[j] as int].id,
    ));
    ids
}

/// Lists the blocked issues of a snapshot, in the order of the snapshot.
///
/// An issue is blocked when it has a `blocks` edge to an issue of the
/// snapshot that is not closed, whatever its own status. Each entry names
/// the blocking issues, one for each such edge.
pub fn blocked_issues(issues: &Vec<Issue>, deps: &Vec<Dependency>) -> (r: Vec<BlockedIssue>)
    ensures
        r.deep_view() == blocked_upto(
            issues.deep_view(),
            deps.deep_view(),
            issues.len() as int,
        ),
{
    let ghost iv = issues.deep_view();
    let ghost dv = deps.deep_view();
    let index = build_index(issues);
    let blockers = build_adjacency(issues, deps, &index, EdgeKind::Blocking, false);
    let n = issues.len();
    let mut r: Vec<BlockedIssue> = Vec::new();
    let mut a: usize = 0;
    while a < n
        invariant
            a <= n,
            n == issues.len(),
            iv == issues.deep_view(),
            dv == deps.deep_view(),
            crate::index::is_index_of(index@, iv),
            crate::graph::is_adjacency(rows(blockers@), iv, dv, EdgeKind::Blocking, false),
            crate::depth_first::graph_ok(rows(blockers@)),
            r.deep_view() == blocked_upto(iv, dv, a as int),
        decreases n - a,
    {
        let issue = &issues[a];
        assert(iv[a as int] == issue@);
        assert(rows(blockers@)[a as int] == blockers@[a as int]@);
        let ghost before = r.deep_view();
        if stands_for_its_id(issues, &index, a) && blockers[a].len() > 0 {
            proof {
                assert forall|j: int| 0 <= j < blockers@[a as int]@.len() implies (
                #[trigger] blockers@[a as int]@[j]) < issues.len() by {
                    assert(rows(blockers@)[a as int][j] < rows(blockers@).len());
                }
            }
            let entry = BlockedIssue {
                issue: issue.clone(),
                blocked_by_count: count_of(blockers[a].len()),
                blocked_by: ids_at(issues, &blockers[a]),
            };
            assert(entry@ == blocked_entry(iv, dv, a as int));
            r.push(entry);
            assert(r.deep_view() =~= before.push(blocked_entry(iv, dv, a as int)));
        }
        a = a + 1;
    }
    r
}

/// The positions of the children of the issue at position `e`: the issues
/// of the snapshot that have a `parent-child` edge to it, in the order of
/// the edges.
pub open spec fn epic_children(issues: Seq<IssueView>, deps: Seq<DependencyView>, e: int) -> Seq<
    usize,
> {
    children(issues, deps, e, EdgeKind::Parenting, true)
}

/// How many of the first `k` positions of a list hold a closed issue.
pub open spec fn closed_among(issues: Seq<IssueView>, list: Seq<usize>, k: int) -> nat
    decreases k,
{
    if k <= 0 {
        0
    } else {
        closed_among(issues, list, k - 1) + if issues[list[k - 1] as int].status == Status::Closed {
            1nat
        } else {
            0nat
        }
    }
}

/// Whether an epic can be closed: it has children and all are closed.
pub open spec fn epic_eligible(issues: Seq<IssueView>, deps: Seq<DependencyView>, e: int) -> bool {
    let c = epic_children(issues, deps, e);
    c.len() > 0 && forall|j: int| 0 <= j < c.len() ==> issues[(#[trigger] c[j]) as int].status == Status::Closed
}

/// All issues of a list are closed exactly when as many are closed as
/// there are.
pub proof fn lemma_all_closed_iff_count(issues: Seq<IssueView>, list: Seq<usize>, k: int)
    requires
        0 <= k <= list.len(),
    ensures
        closed_among(issues, list, k) <= k,
        closed_among(issues, list, k) == k <==> forall|j: int|
            0 <= j < k ==> issues[(#[trigger] list[j]) as int].status == Status::Closed,
    decreases k,
{
    if k > 0 {
        lemma_all_closed_iff_count(issues, list, k - 1);
        if closed_among(issues, list, k) == k {
            assert forall|j: int| 0 <= j < k implies issues[(#[trigger] list[j]) as int].status
                == Status::Closed by {}
        }
    }
}

/// What is reported of the epic at position `e`.
pub open spec fn epic_entry(issues: Seq<IssueView>, deps: Seq<DependencyView>, e: int) -> EpicStatusView {
    let c = epic_children(issues, deps, e);
    EpicStatusView {
        epic: issues[e],
        total_children: stored_count(c.len()),
        closed_children: stored_count(closed_among(issues, c, c.len() as int)),
        eligible_for_close: epic_eligible(issues, deps, e),
    }
}

/// The epics among the first `n` positions, in their order.
pub open spec fn epics_upto(issues: Seq<IssueView>, deps: Seq<DependencyView>, n: int) -> Seq<
    EpicStatusView,
>
    decreases n,
{
    if n <= 0 {
        Seq::empty()
    } else {
        let rest = epics_upto(issues, deps, n - 1);
        if is_first_index(issues, issues[n - 1].id, n - 1) && issues[n - 1].issue_type
            == IssueType::Epic {
            rest.push(epic_entry(issues, deps, n - 1))
        } else {
            rest
        }
    }
}

fn count_closed(issues: &Vec<Issue>, list: &Vec<usize>) -> (c: usize)
    requires
        forall|j: int| 0 <= j < list.len() ==> (#[trigger] list[j]) < issues.len(),
    ensures
        c == closed_among(issues.deep_view(), list@, list.len() as int),
{
    let mut c: usize = 0;
    let mut j: usize = 0;
    while j < list.len()
        invariant
            j <= list.len(),
            c <= j,
            c == closed_among(issues.deep_view(), list@, j as int),
            forall|m: int| 0 <= m < list.len() ==> (#[trigger] list[m]) < issues.len(),
        decreases list.len() - j,
    {
        assert(issues.deep_view()[list[j as int] as int] == issues[list[j as int] as int]@);
        match issues[list[j]].status {
            Status::Closed => {
                c = c + 1;
            },
            _ => {},
        }
        j = j + 1;
    }
    c
}

/// Reports on every epic of a snapshot, in the order of the snapshot: how
/// many children it has, how many of them are closed, and whether it can be
/// closed. An epic can be closed when it has at least one child and every
/// child is closed.
pub fn epics_eligible_for_closure(issues: &Vec<Issue>, deps: &Vec<Dependency>) -> (r: Vec<EpicStatus>)
    ensures
        r.deep_view() == epics_upto(issues.deep_view(), deps.deep_view(), issues.len() as int),
{
    let ghost iv = issues.deep_view();
    let ghost dv = deps.deep_view();
    let index = build_index(issues);
    let kids = build_adjacency(issues, deps, &index, EdgeKind::Parenting, true);
    let n = issues.len();
    let mut r: Vec<EpicStatus> = Vec::new();
    let mut e: usize = 0;
    while e < n
        invariant
            e <= n,
            n == issues.len(),
            iv == issues.deep_view(),
            dv == deps.deep_view(),
            crate::index::is_index_of(index@, iv),
            crate::graph::is_adjacency(rows(kids@), iv, dv, EdgeKind::Parenting, true),
            crate::depth_first::graph_ok(rows(kids@)),
            r.deep_view() == epics_upto(iv, dv, e as int),
        decreases n - e,
    {
        let issue = &issues[e];
        assert(iv[e as int] == issue@);
        assert(rows(kids@)[e as int] == kids@[e as int]@);
        let ghost before = r.deep_view();
        let is_epic = match issue.issue_type {
            IssueType::Epic => true,
            _ => false,
        };
        if is_epic && stands_for_its_id(issues, &index, e) {
            proof {
                assert forall|j: int| 0 <= j < kids@[e as int]@.len() implies (
                #[trigger] kids@[e as int]@[j]) < issues.len() by {
                    assert(rows(kids@)[e as int][j] < rows(kids@).len());
                }
            }
            let total = kids[e].len();
            let closed = count_closed(issues, &kids[e]);
            proof {
                lemma_all_closed_iff_count(iv, kids@[e as int]@, total as int);
            }
            let entry = EpicStatus {
                epic: issue.clone(),
                total_children: count_of(total),
                closed_children: count_of(closed),
                eligible_for_close: total > 0 && closed == total,
            };
            assert(entry@ == epic_entry(iv, dv, e as int));
            r.push(entry);
            assert(r.deep_view() =~= before.push(epic_entry(iv, dv, e as int)));
        }
        e = e + 1;
    }
    r
}

/// Whether a status is one that a stale filter asks for: with no text,
/// every status but closed; else the status with that text.
pub open spec fn status_wanted(s: Status, wanted: Seq<char>) -> bool {
    if wanted.len() == 0 {
        s != Status::Closed
    } else {
        s.spec_str() == wanted
    }
}

/// Whether the issue at position `a` is stale: it stands for its id, it
/// was last updated more than `days` days before `now`, and its status is
/// one that is asked for.
pub open spec fn stale_at(issues: Seq<IssueView>, days: i32, wanted: Seq<char>, now: i64, a: int) -> bool {
    &&& is_first_index(issues, issues[a].id, a)
    &&& issues[a].updated_at < now - days * MICROS_PER_DAY
    &&& status_wanted(issues[a].status, wanted)
}

/// For each position whether its issue is stale.
pub open spec fn stale_flags(issues: Seq<IssueView>, days: i32, wanted: Seq<char>, now: i64) -> Seq<
    bool,
> {
    Seq::new(issues.len(), |a: int| stale_at(issues, days, wanted, now, a))
}

/// The keys of all positions for stale issues: the time of the last update.
pub open spec fn stale_keys(issues: Seq<IssueView>) -> Seq<SortKey> {
    Seq::new(issues.len(), |a: int| SortKey { group: 0, major: issues[a].updated_at, minor: 0 })
}

fn wants_status(s: Status, wanted: &String) -> (b: bool)
    ensures
        b == status_wanted(s, wanted@),
{
    if wanted.as_str().is_empty() {
        match s {
            Status::Closed => false,
            _ => true,
        }
    } else {
        str_eq(s.as_str(), wanted.as_str())
    }
}

/// Lists the stale issues of a snapshot at the time `now`: those last
/// updated more than `days` days ago whose status is asked for, the one
/// updated longest ago first, at most `limit` of them, all where `limit` is
/// zero or less.
pub fn stale_issues(issues: &Vec<Issue>, filter: &StaleFilter, now: i64) -> (r: Vec<Issue>)
    ensures
        is_listing(
            issues.deep_view(),
            stale_keys(issues.deep_view()),
            stale_flags(issues.deep_view(), filter.days, filter.status@, now),
            filter.limit as int,
            r.deep_view(),
        ),
{
    let ghost iv = issues.deep_view();
    let index = build_index(issues);
    let n = issues.len();
    let want_open = wants_status(Status::Open, &filter.status);
    let want_in_progress = wants_status(Status::InProgress, &filter.status);
    let want_blocked = wants_status(Status::Blocked, &filter.status);
    let want_closed = wants_status(Status::Closed, &filter.status);
    let horizon: i128 = now as i128 - (filter.days as i128) * (MICROS_PER_DAY as i128);
    let mut keys: Vec<SortKey> = Vec::new();
    let mut flags: Vec<bool> = Vec::new();
    let mut a: usize = 0;
    while a < n
        invariant
            a <= n,
            n == issues.len(),
            iv == issues.deep_view(),
            crate::index::is_index_of(index@, iv),
            horizon == now - filter.days * MICROS_PER_DAY,
            want_open == status_wanted(Status::Open, filter.status@),
            want_in_progress == status_wanted(Status::InProgress, filter.status@),
            want_blocked == status_wanted(Status::Blocked, filter.status@),
            want_closed == status_wanted(Status::Closed, filter.status@),
            keys.len() == a,
            flags.len() == a,
            forall|k: int|
                0 <= k < a ==> #[trigger] keys[k] == (SortKey {
                    group: 0,
                    major: iv[k].updated_at,
                    minor: 0,
                }),
            forall|k: int|
                0 <= k < a ==> #[trigger] flags[k] == stale_at(iv, filter.days, filter.status@, now, k),
        decreases n - a,
    {
        let issue = &issues[a];
        assert(iv[a as int] == issue@);
        let first = stands_for_its_id(issues, &index, a);
        let wanted = match issue.status {
            Status::Open => want_open,
            Status::InProgress => want_in_progress,
            Status::Blocked => want_blocked,
            Status::Closed => want_closed,
        };
        let old = (issue.updated_at as i128) < horizon;
        flags.push(first && old && wanted);
        keys.push(SortKey { group: 0, major: issue.updated_at, minor: 0 });
        a = a + 1;
    }
    let order = rank_positions(&keys, &flags);
    proof {
        assert(keys@ =~= stale_keys(iv));
        assert(flags@ =~= stale_flags(iv, filter.days, filter.status@, now));
    }
    list_at(issues, &order, filter.limit)
}


/// Every entry of a listing is a selected issue of the snapshot.
pub proof fn lemma_listing_sound(
    issues: Seq<IssueView>,
    keys: Seq<SortKey>,
    selected: Seq<bool>,
    limit: int,
    result: Seq<IssueView>,
    i: int,
) -> (p: int)
    requires
        is_listing(issues, keys, selected, limit, result),
        0 <= i < result.len(),
    ensures
        0 <= p < selected.len(),
        selected[p],
        result[i] == issues[p],
{
    let order = choose|order: Seq<usize>| #[trigger]
        is_ranking(keys, selected, order) && result == limited(at_positions(issues, order), limit);
    assert(result[i] == issues[order[i] as int]);
    order[i] as int
}

/// Without a limit every selected issue is listed.
pub proof fn lemma_listing_complete(
    issues: Seq<IssueView>,
    keys: Seq<SortKey>,
    selected: Seq<bool>,
    limit: int,
    result: Seq<IssueView>,
    p: int,
) -> (i: int)
    requires
        is_listing(issues, keys, selected, limit, result),
        limit <= 0,
        0 <= p < selected.len(),
        selected[p],
    ensures
        0 <= i < result.len(),
        result[i] == issues[p],
{
    let order = choose|order: Seq<usize>| #[trigger]
        is_ranking(keys, selected, order) && result == limited(at_positions(issues, order), limit);
    let i = choose|i: int| 0 <= i < order.len() && #[trigger] order[i] == p;
    assert(result[i] == issues[order[i] as int]);
    i
}

/// The entries of a listing come by ascending key.
pub proof fn lemma_listing_sorted(
    issues: Seq<IssueView>,
    keys: Seq<SortKey>,
    selected: Seq<bool>,
    limit: int,
    result: Seq<IssueView>,
    i: int,
    j: int,
) -> (pq: (int, int))
    requires
        is_listing(issues, keys, selected, limit, result),
        0 <= i < j < result.len(),
    ensures
        0 <= pq.0 < keys.len(),
        0 <= pq.1 < keys.len(),
        result[i] == issues[pq.0],
        result[j] == issues[pq.1],
        !keys[pq.1].spec_before(keys[pq.0]),
{
    let order = choose|order: Seq<usize>| #[trigger]
        is_ranking(keys, selected, order) && result == limited(at_positions(issues, order), limit);
    assert(result[i] == issues[order[i] as int]);
    assert(result[j] == issues[order[j] as int]);
    assert(crate::ranking::precedes(keys, order[i] as int, order[j] as int));
    (order[i] as int, order[j] as int)
}

/// The inputs determine the listing.
pub proof fn lemma_listing_unique(
    issues: Seq<IssueView>,
    keys: Seq<SortKey>,
    selected: Seq<bool>,
    limit: int,
    first: Seq<IssueView>,
    second: Seq<IssueView>,
)
    requires
        is_listing(issues, keys, selected, limit, first),
        is_listing(issues, keys, selected, limit, second),
    ensures
        first == second,
{
    let a = choose|order: Seq<usize>| #[trigger]
        is_ranking(keys, selected, order) && first == limited(at_positions(issues, order), limit);
    let b = choose|order: Seq<usize>| #[trigger]
        is_ranking(keys, selected, order) && second == limited(at_positions(issues, order), limit);
    crate::ranking::lemma_ranking_unique(keys, selected, a, b);
}

/// A blocked issue is never listed as ready work: no entry of a listing of
/// ready work has its id.
pub proof fn lemma_blocked_never_ready(
    issues: Seq<IssueView>,
    deps: Seq<DependencyView>,
    f: WorkFilterView,
    keys: Seq<SortKey>,
    limit: int,
    result: Seq<IssueView>,
    a: int,
)
    requires
        is_listing(issues, keys, ready_flags(issues, deps, f), limit, result),
        is_first_index(issues, issues[a].id, a),
        blocked_at(issues, deps, a),
    ensures
        forall|i: int| 0 <= i < result.len() ==> (#[trigger] result[i]).id != issues[a].id,
{
    assert forall|i: int| 0 <= i < result.len() implies (#[trigger] result[i]).id
        != issues[a].id by {
        let p = lemma_listing_sound(issues, keys, ready_flags(issues, deps, f), limit, result, i);
        assert(ready_at(issues, deps, f, p));
        if result[i].id == issues[a].id {
            lemma_first_index_unique(issues, issues[a].id, a, p);
        }
    }
}

/// Once the one issue that blocks an open issue is closed, the open issue
/// is listed as ready work, provided that it passes the filter and that
/// the listing has no limit. The closed issue may differ from the blocker
/// in anything but its id.
pub proof fn lemma_ready_once_blocker_closed(
    issues: Seq<IssueView>,
    deps: Seq<DependencyView>,
    f: WorkFilterView,
    keys: Seq<SortKey>,
    limit: int,
    result: Seq<IssueView>,
    a: int,
    b: int,
    closed: IssueView,
) -> (i: int)
    requires
        issues.len() <= usize::MAX,
        0 <= b < issues.len(),
        a != b,
        is_first_index(issues, issues[a].id, a),
        issues[a].status == Status::Open,
        matches_filter(issues[a], f),
        forall|j: int|
            0 <= j < blockers_at(issues, deps, a).len() ==> #[trigger] blockers_at(
                issues,
                deps,
                a,
            )[j] == b,
        closed.id == issues[b].id,
        closed.status == Status::Closed,
        limit <= 0,
        is_listing(
            issues.update(b, closed),
            keys,
            ready_flags(issues.update(b, closed), deps, f),
            limit,
            result,
        ),
    ensures
        0 <= i < result.len(),
        result[i] == issues[a],
{
    let after = issues.update(b, closed);
    assert forall|id: Seq<char>, p: int| is_first_index(after, id, p) <==> is_first_index(
        issues,
        id,
        p,
    ) by {
        if is_first_index(after, id, p) {
            assert(issues[p].id == after[p].id);
            assert forall|j: int| 0 <= j < p implies #[trigger] issues[j].id != id by {
                assert(after[j].id == issues[j].id);
            }
        }
        if is_first_index(issues, id, p) {
            assert(issues[p].id == after[p].id);
            assert forall|j: int| 0 <= j < p implies #[trigger] after[j].id != id by {
                assert(after[j].id == issues[j].id);
            }
        }
    }
    lemma_blocked_iff_edge(after, deps, a);
    if blocked_at(after, deps, a) {
        let k = choose|k: int|
            0 <= k < deps.len() && edge_leaves(
                after,
                #[trigger] deps[k],
                a,
                EdgeKind::Blocking,
                false,
            );
        let target = deps[k].depends_on_id;
        let w = choose|w: int| 0 <= w < after.len() && #[trigger] after[w].id == target;
        crate::index::lemma_first_index_exists(after, target, w);
        let t = crate::index::first_index(after, target);
        assert(is_first_index(issues, target, t));
        lemma_first_index_unique(issues, target, t, t);
        assert(issues[w].id == target);
        assert(t != b);
        assert(after[t] == issues[t]);
        assert(edge_leaves(issues, deps[k], a, EdgeKind::Blocking, false));
        let j = lemma_children_complete(
            issues,
            deps,
            a,
            EdgeKind::Blocking,
            false,
            deps.len() as int,
            k,
        );
        assert(blockers_at(issues, deps, a)[j] == b);
        assert(false);
    }
    assert(ready_at(after, deps, f, a));
    lemma_listing_complete(after, keys, ready_flags(after, deps, f), limit, result, a)
}

/// An epic without children cannot be closed, nor can one with a child
/// that is not closed; one whose children are all closed can.
pub proof fn lemma_epic_eligibility(issues: Seq<IssueView>, deps: Seq<DependencyView>, e: int)
    ensures
        epic_children(issues, deps, e).len() == 0 ==> !epic_eligible(issues, deps, e),
        forall|j: int|
            0 <= j < epic_children(issues, deps, e).len() && issues[(#[trigger] epic_children(
                issues,
                deps,
                e,
            )[j]) as int].status != Status::Closed ==> !epic_eligible(issues, deps, e),
        epic_eligible(issues, deps, e) <==> epic_children(issues, deps, e).len() > 0
            && closed_among(
            issues,
            epic_children(issues, deps, e),
            epic_children(issues, deps, e).len() as int,
        ) == epic_children(issues, deps, e).len(),
{
    let c = epic_children(issues, deps, e);
    lemma_all_closed_iff_count(issues, c, c.len() as int);
}

/// What is reported of an epic with fewer than 2^31 children holds the
/// numbers of its children and of its closed children, and says that the
/// epic can be closed exactly when it has a child and as many closed
/// children as children.
pub proof fn lemma_epic_counts(issues: Seq<IssueView>, deps: Seq<DependencyView>, e: int)
    requires
        epic_children(issues, deps, e).len() <= i32::MAX,
    ensures
        epic_entry(issues, deps, e).total_children == epic_children(issues, deps, e).len(),
        epic_entry(issues, deps, e).closed_children == closed_among(
            issues,
            epic_children(issues, deps, e),
            epic_children(issues, deps, e).len() as int,
        ),
        0 <= epic_entry(issues, deps, e).closed_children <= epic_entry(issues, deps, e).total_children,
        epic_entry(issues, deps, e).eligible_for_close <==> epic_entry(issues, deps, e).total_children
            > 0 && epic_entry(issues, deps, e).closed_children == epic_entry(
            issues,
            deps,
            e,
        ).total_children,
{
    let c = epic_children(issues, deps, e);
    lemma_all_closed_iff_count(issues, c, c.len() as int);
}

/// Whether the issue at position `e` is an epic that stands for its id.
pub open spec fn is_epic_at(issues: Seq<IssueView>, e: int) -> bool {
    0 <= e < issues.len() && is_first_index(issues, issues[e].id, e) && issues[e].issue_type
        == IssueType::Epic
}

/// Whether `x` is what is reported of an epic among the first `n`
/// positions.
pub open spec fn is_epic_entry(
    issues: Seq<IssueView>,
    deps: Seq<DependencyView>,
    n: int,
    x: EpicStatusView,
) -> bool {
    exists|e: int|
        0 <= e < n && is_epic_at(issues, e) && #[trigger] epic_entry(issues, deps, e) == x
}

/// Every epic of a snapshot is reported, every entry of the report is that
/// of an epic of the snapshot, and no two entries are of the same id: so
/// each epic is reported exactly once.
pub proof fn lemma_epic_once(issues: Seq<IssueView>, deps: Seq<DependencyView>, n: int)
    requires
        0 <= n <= issues.len(),
    ensures
        forall|e: int|
            0 <= e < n && #[trigger] is_epic_at(issues, e) ==> exists|k: int|
                0 <= k < epics_upto(issues, deps, n).len() && #[trigger] epics_upto(issues, deps, n)[k]
                    == epic_entry(issues, deps, e),
        forall|k: int|
            0 <= k < epics_upto(issues, deps, n).len() ==> is_epic_entry(
                issues,
                deps,
                n,
                #[trigger] epics_upto(issues, deps, n)[k],
            ),
        forall|k1: int, k2: int|
            0 <= k1 < k2 < epics_upto(issues, deps, n).len() ==> (#[trigger] epics_upto(
                issues,
                deps,
                n,
            )[k1]).epic.id != (#[trigger] epics_upto(issues, deps, n)[k2]).epic.id,
    decreases n,
{
    if n > 0 {
        lemma_epic_once(issues, deps, n - 1);
        let rest = epics_upto(issues, deps, n - 1);
        let all = epics_upto(issues, deps, n);
        let last = epic_entry(issues, deps, n - 1);
        if is_epic_at(issues, n - 1) {
            assert(all == rest.push(last));
        } else {
            assert(all == rest);
        }
        assert forall|e: int| 0 <= e < n && #[trigger] is_epic_at(issues, e) implies exists|k: int|
            0 <= k < all.len() && #[trigger] all[k] == epic_entry(issues, deps, e) by {
            if e == n - 1 {
                assert(all[rest.len() as int] == last);
            } else {
                let k = choose|k: int|
                    0 <= k < rest.len() && #[trigger] rest[k] == epic_entry(issues, deps, e);
                assert(all[k] == rest[k]);
            }
        }
        assert forall|k: int| 0 <= k < all.len() implies is_epic_entry(
            issues,
            deps,
            n,
            #[trigger] all[k],
        ) by {
            if k < rest.len() {
                assert(all[k] == rest[k]);
                assert(is_epic_entry(issues, deps, n - 1, rest[k]));
                let e = choose|e: int|
                    0 <= e < n - 1 && is_epic_at(issues, e) && #[trigger] epic_entry(issues, deps, e)
                        == rest[k];
                assert(epic_entry(issues, deps, e) == all[k]);
            } else {
                assert(epic_entry(issues, deps, n - 1) == all[k]);
            }
        }
        assert forall|k1: int, k2: int| 0 <= k1 < k2 < all.len() implies (#[trigger] all[k1]).epic.id
            != (#[trigger] all[k2]).epic.id by {
            assert(all[k1] == rest[k1]);
            if k2 < rest.len() {
                assert(all[k2] == rest[k2]);
            } else {
                assert(is_epic_entry(issues, deps, n - 1, rest[k1]));
                let e = choose|e: int|
                    0 <= e < n - 1 && is_epic_at(issues, e) && #[trigger] epic_entry(issues, deps, e)
                        == rest[k1];
                assert(all[k1].epic == issues[e]);
                assert(all[k2].epic == issues[n - 1]);
                assert(is_first_index(issues, issues[n - 1].id, n - 1));
                assert(issues[e].id != issues[n - 1].id);
            }
        }
    }
}

} // verus!
