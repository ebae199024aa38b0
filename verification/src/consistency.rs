//! What holds of a store at all times, and that every operation keeps it.

use vstd::prelude::*;
use crate::hash::content_hash;
use crate::index::{first_index, has_issue, is_first_index, lemma_first_index_exists};
use crate::store::{
    comments_below, comments_counted, counter_past, lemma_fresh_comment_id, lemma_highest_in,
    apply_updates, closed_at, dirty_ids, empty_store, has_mark, hashed, ref_conflict,
    unique_ids, unique_refs, unlinked, without_mark, without_pair, without_source, without_target,
    without_text, StoreView,
};
use crate::types::DirtyMarkView;
use crate::sync::{
    after_export, exported, import_step, import_upto, imported, lemma_round_trip, ImportState,
};
use crate::text::has_text;
use crate::types::{DependencyView, IssueView};
use crate::validation::validation_error;

verus! {

/// Whether an issue is as a store keeps it: its fields are acceptable, and
/// it carries the hash of its content.
pub open spec fn well_kept(i: IssueView) -> bool {
    validation_error(i) is None && i.content_hash == Some(content_hash(i))
}

/// Whether every edge of a list of loose edges leaves an issue that a list
/// of issues does not hold.
pub open spec fn loose_apart(issues: Seq<IssueView>, loose: Seq<DependencyView>) -> bool {
    forall|k: int| 0 <= k < loose.len() ==> !has_issue(issues, (#[trigger] loose[k]).issue_id)
}

/// Whether a store is consistent: no two issues have the same id or the
/// same external reference, every issue is well kept, no issue is marked
/// dirty twice, the counter of comment ids is past every stored comment,
/// and every loose edge leaves an issue that the store does not hold.
pub open spec fn consistent(s: StoreView) -> bool {
    &&& loose_apart(s.issues, s.loose)
    &&& comments_counted(s.issues, s.next_comment_id)
    &&& unique_ids(s.issues)
    &&& unique_refs(s.issues)
    &&& forall|p: int| 0 <= p < s.issues.len() ==> well_kept(#[trigger] s.issues[p])
    &&& dirty_ids(s.dirty).no_duplicates()
}

/// An empty store is consistent.
pub proof fn lemma_empty_consistent()
    ensures
        consistent(empty_store()),
{
}

/// The issue that stands for an id has that id.
pub proof fn lemma_position(s: StoreView, id: Seq<char>)
    requires
        s.has(id),
    ensures
        0 <= s.position(id) < s.issues.len(),
        s.issue(id).id == id,
        is_first_index(s.issues, id, s.position(id)),
{
    let w = choose|w: int| 0 <= w < s.issues.len() && #[trigger] s.issues[w].id == id;
    lemma_first_index_exists(s.issues, id, w);
}

/// In a consistent store the counter of comment ids is past the comments
/// of every issue.
pub proof fn lemma_stored_comments(s: StoreView, p: int)
    requires
        consistent(s),
        0 <= p < s.issues.len(),
    ensures
        comments_below(s.issues[p].comments, s.next_comment_id),
{
}

/// Recording an event keeps a store consistent.
pub proof fn lemma_event_consistent(s: StoreView, t: StoreView)
    requires
        consistent(s),
        t.issues == s.issues,
        t.loose == s.loose,
        t.dirty == s.dirty,
        t.next_comment_id == s.next_comment_id,
    ensures
        consistent(t),
{
}

/// A list of issues with the ids of another, position by position, holds
/// the same ids.
pub proof fn lemma_ids_held(a: Seq<IssueView>, b: Seq<IssueView>, id: Seq<char>)
    requires
        a.len() == b.len(),
        forall|q: int| 0 <= q < a.len() ==> (#[trigger] a[q]).id == b[q].id,
    ensures
        has_issue(a, id) == has_issue(b, id),
{
    if has_issue(a, id) {
        let q = choose|q: int| 0 <= q < a.len() && #[trigger] a[q].id == id;
        assert(b[q].id == id);
    }
    if has_issue(b, id) {
        let q = choose|q: int| 0 <= q < b.len() && #[trigger] b[q].id == id;
        assert(a[q].id == id);
    }
}

/// Loose edges that are apart from a list of issues are apart from a list
/// with the same ids, position by position.
pub proof fn lemma_loose_same_ids(a: Seq<IssueView>, b: Seq<IssueView>, loose: Seq<DependencyView>)
    requires
        loose_apart(a, loose),
        a.len() == b.len(),
        forall|q: int| 0 <= q < a.len() ==> (#[trigger] a[q]).id == b[q].id,
    ensures
        loose_apart(b, loose),
{
    assert forall|k: int| 0 <= k < loose.len() implies !has_issue(
        b,
        (#[trigger] loose[k]).issue_id,
    ) by {
        lemma_ids_held(a, b, loose[k].issue_id);
    }
}

/// Loose edges stay apart from a list of issues when those that leave one
/// issue are taken out, and none of the rest leaves that issue.
pub proof fn lemma_without_source_apart(
    issues: Seq<IssueView>,
    loose: Seq<DependencyView>,
    id: Seq<char>,
    k: int,
)
    requires
        loose_apart(issues, loose),
        0 <= k <= loose.len(),
    ensures
        loose_apart(issues, without_source(loose, id, k)),
        forall|j: int|
            0 <= j < without_source(loose, id, k).len() ==> (#[trigger] without_source(
                loose,
                id,
                k,
            )[j]).issue_id != id,
    decreases k,
{
    if k > 0 {
        lemma_without_source_apart(issues, loose, id, k - 1);
        let prev = without_source(loose, id, k - 1);
        let rest = without_source(loose, id, k);
        assert forall|j: int| 0 <= j < rest.len() implies !has_issue(
            issues,
            (#[trigger] rest[j]).issue_id,
        ) && rest[j].issue_id != id by {
            if j < prev.len() {
                assert(rest[j] == prev[j]);
            } else {
                assert(rest[j] == loose[k - 1]);
            }
        }
    }
}

/// Loose edges stay apart from a list of issues when those that lead to
/// one issue are taken out.
pub proof fn lemma_without_target_apart(
    issues: Seq<IssueView>,
    loose: Seq<DependencyView>,
    id: Seq<char>,
    k: int,
)
    requires
        loose_apart(issues, loose),
        0 <= k <= loose.len(),
    ensures
        loose_apart(issues, without_target(loose, id, k)),
    decreases k,
{
    if k > 0 {
        lemma_without_target_apart(issues, loose, id, k - 1);
        let prev = without_target(loose, id, k - 1);
        let rest = without_target(loose, id, k);
        assert forall|j: int| 0 <= j < rest.len() implies !has_issue(
            issues,
            (#[trigger] rest[j]).issue_id,
        ) by {
            if j < prev.len() {
                assert(rest[j] == prev[j]);
            } else {
                assert(rest[j] == loose[k - 1]);
            }
        }
    }
}

/// Loose edges stay apart from a list of issues when those between two
/// issues are taken out.
pub proof fn lemma_without_pair_apart(
    issues: Seq<IssueView>,
    loose: Seq<DependencyView>,
    from: Seq<char>,
    to: Seq<char>,
    k: int,
)
    requires
        loose_apart(issues, loose),
        0 <= k <= loose.len(),
    ensures
        loose_apart(issues, without_pair(loose, from, to, k)),
    decreases k,
{
    if k > 0 {
        lemma_without_pair_apart(issues, loose, from, to, k - 1);
        let prev = without_pair(loose, from, to, k - 1);
        let rest = without_pair(loose, from, to, k);
        assert forall|j: int| 0 <= j < rest.len() implies !has_issue(
            issues,
            (#[trigger] rest[j]).issue_id,
        ) by {
            if j < prev.len() {
                assert(rest[j] == prev[j]);
            } else {
                assert(rest[j] == loose[k - 1]);
            }
        }
    }
}

/// Taking loose edges out of a store, so that the rest is still apart from
/// its issues, keeps it consistent.
pub proof fn lemma_loose_consistent(s: StoreView, loose: Seq<DependencyView>)
    requires
        consistent(s),
        loose_apart(s.issues, loose),
    ensures
        consistent(StoreView { loose: loose, ..s }),
{
}

/// Marking an issue dirty keeps a store consistent.
pub proof fn lemma_dirty_consistent(s: StoreView, id: Seq<char>, now: i64)
    requires
        consistent(s),
    ensures
        consistent(s.with_dirty(id, now)),
{
    if !has_mark(s.dirty, id) {
        let before = dirty_ids(s.dirty);
        let d = dirty_ids(s.with_dirty(id, now).dirty);
        assert(d =~= before.push(id));
        assert forall|i: int, j: int| 0 <= i < d.len() && 0 <= j < d.len() && i != j implies d[i]
            != d[j] by {
            if i < before.len() && j < before.len() {
                assert(before[i] != before[j]);
            } else if i < before.len() {
                assert(s.dirty[i].issue_id != id);
            } else if j < before.len() {
                assert(s.dirty[j].issue_id != id);
            }
        }
    }
}

/// Replacing an issue by a well-kept one with the same id, and with an
/// external reference that no other issue carries, keeps a store
/// consistent.
pub proof fn lemma_replace_consistent(s: StoreView, p: int, i: IssueView)
    requires
        consistent(s),
        0 <= p < s.issues.len(),
        i.id == s.issues[p].id,
        well_kept(i),
        !ref_conflict(s.issues, i),
        comments_below(i.comments, s.next_comment_id),
    ensures
        consistent(s.with_issue(p, i)),
{
    let t = s.with_issue(p, i);
    lemma_loose_same_ids(s.issues, t.issues, s.loose);
    assert forall|q: int| 0 <= q < t.issues.len() implies comments_below(
        (#[trigger] t.issues[q]).comments,
        t.next_comment_id,
    ) by {
        if q != p {
            assert(t.issues[q] == s.issues[q]);
        }
    }
    assert forall|a: int, b: int|
        0 <= a < t.issues.len() && 0 <= b < t.issues.len() && a != b && (
        #[trigger] t.issues[a]).external_ref is Some implies t.issues[a].external_ref != (
        #[trigger] t.issues[b]).external_ref by {
        lemma_other_ids(s.issues, a, b);
        if a == p {
            assert(t.issues[b] == s.issues[b]);
            assert(s.issues[b].id != i.id);
        } else if b == p {
            assert(t.issues[a] == s.issues[a]);
            assert(s.issues[a].id != i.id);
        } else {
            assert(t.issues[a] == s.issues[a]);
            assert(t.issues[b] == s.issues[b]);
        }
    }
    assert forall|a: int, b: int| 0 <= a < b < t.issues.len() implies (#[trigger] t.issues[a]).id != (
    #[trigger] t.issues[b]).id by {
        assert(t.issues[a].id == s.issues[a].id);
        assert(t.issues[b].id == s.issues[b].id);
    }
    assert forall|q: int| 0 <= q < t.issues.len() implies well_kept(#[trigger] t.issues[q]) by {
        if q != p {
            assert(t.issues[q] == s.issues[q]);
        }
    }
}

/// Two positions of a list without a repeated id hold different ids.
proof fn lemma_other_ids(issues: Seq<IssueView>, a: int, b: int)
    requires
        unique_ids(issues),
        0 <= a < issues.len(),
        0 <= b < issues.len(),
        a != b,
    ensures
        issues[a].id != issues[b].id,
{
    if a < b {
        assert(issues[a].id != issues[b].id);
    } else {
        assert(issues[b].id != issues[a].id);
    }
}

/// In a consistent store no issue carries the external reference of
/// another.
pub proof fn lemma_no_conflict(s: StoreView, p: int, i: IssueView)
    requires
        consistent(s),
        0 <= p < s.issues.len(),
        i.id == s.issues[p].id,
        i.external_ref == s.issues[p].external_ref,
    ensures
        !ref_conflict(s.issues, i),
{
    if ref_conflict(s.issues, i) {
        let q = choose|q: int|
            0 <= q < s.issues.len() && (#[trigger] s.issues[q]).external_ref == Some(
                i.external_ref->0,
            ) && s.issues[q].id != i.id;
        assert(s.issues[p].external_ref != s.issues[q].external_ref);
    }
}

/// Adding a well-kept issue with a new id, and with an external reference
/// that no other issue carries, keeps a store consistent.
pub proof fn lemma_push_consistent(s: StoreView, i: IssueView)
    requires
        consistent(s),
        !s.has(i.id),
        well_kept(i),
        !ref_conflict(s.issues, i),
        comments_below(i.comments, s.next_comment_id),
        forall|k: int| 0 <= k < s.loose.len() ==> (#[trigger] s.loose[k]).issue_id != i.id,
    ensures
        consistent(StoreView { issues: s.issues.push(i), ..s }),
{
    let t = StoreView { issues: s.issues.push(i), ..s };
    assert forall|k: int| 0 <= k < t.loose.len() implies !has_issue(
        t.issues,
        (#[trigger] t.loose[k]).issue_id,
    ) by {
        let x = t.loose[k].issue_id;
        if has_issue(t.issues, x) {
            let q = choose|q: int| 0 <= q < t.issues.len() && #[trigger] t.issues[q].id == x;
            if q < s.issues.len() {
                assert(s.issues[q].id == x);
                assert(has_issue(s.issues, x));
            }
            assert(s.loose[k].issue_id != i.id);
        }
    }
    assert forall|q: int| 0 <= q < t.issues.len() implies comments_below(
        (#[trigger] t.issues[q]).comments,
        t.next_comment_id,
    ) by {
        if q < s.issues.len() {
            assert(t.issues[q] == s.issues[q]);
        }
    }
    assert forall|a: int, b: int|
        0 <= a < t.issues.len() && 0 <= b < t.issues.len() && a != b && (
        #[trigger] t.issues[a]).external_ref is Some implies t.issues[a].external_ref != (
        #[trigger] t.issues[b]).external_ref by {
        if a < s.issues.len() && b < s.issues.len() {
            assert(t.issues[a] == s.issues[a]);
            assert(t.issues[b] == s.issues[b]);
        } else if a < s.issues.len() {
            assert(t.issues[a] == s.issues[a]);
            if s.issues[a].id == i.id {
                assert(has_issue(s.issues, i.id));
            }
        } else {
            assert(t.issues[b] == s.issues[b]);
            if s.issues[b].id == i.id {
                assert(has_issue(s.issues, i.id));
            }
        }
    }
    assert forall|a: int, b: int| 0 <= a < b < t.issues.len() implies (#[trigger] t.issues[a]).id != (
    #[trigger] t.issues[b]).id by {
        assert(t.issues[a] == s.issues[a]);
        if b < s.issues.len() {
            assert(t.issues[b] == s.issues[b]);
        } else {
            if s.issues[a].id == i.id {
                assert(has_issue(s.issues, i.id));
            }
        }
    }
    assert forall|q: int| 0 <= q < t.issues.len() implies well_kept(#[trigger] t.issues[q]) by {
        if q < s.issues.len() {
            assert(t.issues[q] == s.issues[q]);
        }
    }
}

/// Creating an issue keeps a store consistent.
pub proof fn lemma_created_consistent(s: StoreView, i: IssueView, actor: Seq<char>, now: i64)
    requires
        consistent(s),
        validation_error(i) is None,
        !s.has(i.id),
        !ref_conflict(s.issues, i),
    ensures
        consistent(s.created(i, actor, now)),
{
    let kept = s.adopted(i);
    let rest = without_source(s.loose, i.id, s.loose.len() as int);
    assert(ref_conflict(s.issues, kept) == ref_conflict(s.issues, i));
    lemma_without_source_apart(s.issues, s.loose, i.id, s.loose.len() as int);
    lemma_loose_consistent(s, rest);
    let apart = StoreView { loose: rest, ..s };
    lemma_push_consistent(apart, kept);
    let t = StoreView { issues: s.issues.push(kept), loose: rest, ..s };
    lemma_dirty_consistent(
        t.with_event(i.id, crate::types::EventType::Created, actor, None, None, None, now), i.id, now);
}

/// Closing an issue keeps a store consistent.
pub proof fn lemma_closed_consistent(
    s: StoreView,
    id: Seq<char>,
    reason: Seq<char>,
    actor: Seq<char>,
    now: i64,
)
    requires
        consistent(s),
        s.has(id),
    ensures
        consistent(s.closed(id, reason, actor, now)),
{
    lemma_position(s, id);
    let p = s.position(id);
    assert(well_kept(s.issues[p]));
    lemma_stored_comments(s, p);
    lemma_no_conflict(s, p, closed_at(s.issue(id), now));
    lemma_replace_consistent(s, p, closed_at(s.issue(id), now));
    let t = s.with_issue(p, closed_at(s.issue(id), now));
    lemma_dirty_consistent(t.with_event(id, crate::types::EventType::Closed, actor, None, None, Some(reason), now), id, now);
}

/// An update leaves the id of an issue as it is.
pub proof fn lemma_updates_keep_id(
    i: IssueView,
    updates: Seq<(Seq<char>, Seq<char>)>,
    now: i64,
    k: int,
)
    requires
        0 <= k,
        apply_updates(i, updates, now, k) is Some,
    ensures
        apply_updates(i, updates, now, k)->0.id == i.id,
        apply_updates(i, updates, now, k)->0.comments == i.comments,
    decreases k,
{
    if k > 0 {
        lemma_updates_keep_id(i, updates, now, k - 1);
    }
}

proof fn lemma_update_events(
    s: StoreView,
    id: Seq<char>,
    updates: Seq<(Seq<char>, Seq<char>)>,
    actor: Seq<char>,
    now: i64,
    k: int,
)
    requires
        0 <= k,
    ensures
        s.with_update_events(id, updates, actor, now, k).issues == s.issues,
        s.with_update_events(id, updates, actor, now, k).loose == s.loose,
        s.with_update_events(id, updates, actor, now, k).dirty == s.dirty,
        s.with_update_events(id, updates, actor, now, k).next_comment_id == s.next_comment_id,
    decreases k,
{
    if k > 0 {
        lemma_update_events(s, id, updates, actor, now, k - 1);
    }
}

/// Updating an issue keeps a store consistent.
pub proof fn lemma_updated_consistent(
    s: StoreView,
    id: Seq<char>,
    updates: Seq<(Seq<char>, Seq<char>)>,
    actor: Seq<char>,
    now: i64,
)
    requires
        consistent(s),
        s.has(id),
        apply_updates(s.issue(id), updates, now, updates.len() as int) is Some,
        validation_error(apply_updates(s.issue(id), updates, now, updates.len() as int)->0) is None,
        !ref_conflict(
            s.issues,
            apply_updates(s.issue(id), updates, now, updates.len() as int)->0,
        ),
    ensures
        consistent(
            s.updated(
                id,
                apply_updates(s.issue(id), updates, now, updates.len() as int)->0,
                updates,
                actor,
                now,
            ),
        ),
{
    lemma_position(s, id);
    let p = s.position(id);
    let applied = apply_updates(s.issue(id), updates, now, updates.len() as int)->0;
    lemma_updates_keep_id(s.issue(id), updates, now, updates.len() as int);
    let kept = hashed(IssueView { updated_at: now, ..applied });
    assert(ref_conflict(s.issues, kept) == ref_conflict(s.issues, applied));
    lemma_stored_comments(s, p);
    assert(kept.comments == s.issues[p].comments);
    lemma_replace_consistent(s, p, kept);
    let t = s.with_issue(p, kept);
    lemma_update_events(t, id, updates, actor, now, updates.len() as int);
    lemma_event_consistent(t, t.with_update_events(id, updates, actor, now, updates.len() as int));
    lemma_dirty_consistent(
        t.with_update_events(id, updates, actor, now, updates.len() as int),
        id,
        now,
    );
}

/// Changing the labels, the comments or the edges of an issue keeps a
/// store consistent.
pub proof fn lemma_attachments_consistent(
    s: StoreView,
    id: Seq<char>,
    labels: Seq<Seq<char>>,
    dependencies: Seq<DependencyView>,
    comments: Seq<crate::types::CommentView>,
)
    requires
        consistent(s),
        s.has(id),
        comments_below(comments, s.next_comment_id),
    ensures
        consistent(
            s.with_issue(
                s.position(id),
                IssueView {
                    labels: labels,
                    dependencies: dependencies,
                    comments: comments,
                    ..s.issue(id)
                },
            ),
        ),
{
    lemma_position(s, id);
    let p = s.position(id);
    assert(well_kept(s.issues[p]));
    let kept = IssueView {
        labels: labels,
        dependencies: dependencies,
        comments: comments,
        ..s.issue(id)
    };
    lemma_no_conflict(s, p, kept);
    lemma_replace_consistent(s, p, kept);
}

/// Adding an edge keeps a store consistent.
pub proof fn lemma_linked_consistent(s: StoreView, d: DependencyView, actor: Seq<char>, now: i64)
    requires
        consistent(s),
        s.has(d.issue_id),
    ensures
        consistent(s.linked(d, actor, now)),
{
    let i = s.issue(d.issue_id);
    lemma_position(s, d.issue_id);
    lemma_stored_comments(s, s.position(d.issue_id));
    lemma_attachments_consistent(s, d.issue_id, i.labels, i.dependencies.push(d), i.comments);
    let t = s.with_issue(
        s.position(d.issue_id),
        IssueView { dependencies: i.dependencies.push(d), ..i },
    );
    lemma_dirty_consistent(
        t.with_event(
            d.issue_id,
            crate::types::EventType::DependencyAdded,
            actor,
            None,
            Some(d.depends_on_id),
            None,
            now,
        ), d.issue_id, now);
}

/// Removing an edge keeps a store consistent.
pub proof fn lemma_unlinked_consistent(
    s: StoreView,
    from: Seq<char>,
    to: Seq<char>,
    actor: Seq<char>,
    now: i64,
)
    requires
        consistent(s),
        s.has(from),
    ensures
        consistent(s.unlinked_edge(from, to, actor, now)),
{
    let i = s.issue(from);
    let kept = without_target(i.dependencies, to, i.dependencies.len() as int);
    lemma_position(s, from);
    lemma_stored_comments(s, s.position(from));
    lemma_attachments_consistent(s, from, i.labels, kept, i.comments);
    let t = s.with_issue(s.position(from), IssueView { dependencies: kept, ..i });
    lemma_dirty_consistent(t.with_event(
            from,
            crate::types::EventType::DependencyRemoved,
            actor,
            Some(to),
            None,
            None,
            now,
        ), from, now);
}

/// Adding an edge, to an issue of the store or to the loose edges, keeps a
/// store consistent.
pub proof fn lemma_with_edge_consistent(s: StoreView, d: DependencyView, actor: Seq<char>, now: i64)
    requires
        consistent(s),
    ensures
        consistent(s.with_edge(d, actor, now)),
{
    if s.has(d.issue_id) {
        lemma_linked_consistent(s, d, actor, now);
    } else {
        let t = StoreView { loose: s.loose.push(d), ..s };
        assert forall|k: int| 0 <= k < t.loose.len() implies !has_issue(
            t.issues,
            (#[trigger] t.loose[k]).issue_id,
        ) by {
            if k < s.loose.len() {
                assert(t.loose[k] == s.loose[k]);
            }
        }
        lemma_loose_consistent(s, t.loose);
        lemma_dirty_consistent(
            t.with_event(
                d.issue_id,
                crate::types::EventType::DependencyAdded,
                actor,
                None,
                Some(d.depends_on_id),
                None,
                now,
            ), d.issue_id, now);
    }
}

/// Removing an edge, from an issue of the store or from the loose edges,
/// keeps a store consistent.
pub proof fn lemma_without_edge_consistent(
    s: StoreView,
    from: Seq<char>,
    to: Seq<char>,
    actor: Seq<char>,
    now: i64,
)
    requires
        consistent(s),
    ensures
        consistent(s.without_edge(from, to, actor, now)),
{
    if s.has(from) {
        lemma_unlinked_consistent(s, from, to, actor, now);
    } else {
        let rest = without_pair(s.loose, from, to, s.loose.len() as int);
        lemma_without_pair_apart(s.issues, s.loose, from, to, s.loose.len() as int);
        lemma_loose_consistent(s, rest);
        let t = StoreView { loose: rest, ..s };
        lemma_dirty_consistent(t.with_event(
                from,
                crate::types::EventType::DependencyRemoved,
                actor,
                Some(to),
                None,
                None,
                now,
            ), from, now);
    }
}

/// Putting a label on an issue keeps a store consistent.
pub proof fn lemma_labelled_consistent(
    s: StoreView,
    id: Seq<char>,
    label: Seq<char>,
    actor: Seq<char>,
    now: i64,
)
    requires
        consistent(s),
        s.has(id),
    ensures
        consistent(s.labelled(id, label, actor, now)),
{
    let i = s.issue(id);
    let labels = if has_text(i.labels, label) {
        i.labels
    } else {
        i.labels.push(label)
    };
    lemma_position(s, id);
    lemma_stored_comments(s, s.position(id));
    lemma_attachments_consistent(s, id, labels, i.dependencies, i.comments);
    let t = s.with_issue(s.position(id), IssueView { labels: labels, ..i });
    lemma_dirty_consistent(t.with_event(id, crate::types::EventType::LabelAdded, actor, None, Some(label), None, now), id, now);
}

/// Taking a label off an issue keeps a store consistent.
pub proof fn lemma_unlabelled_consistent(
    s: StoreView,
    id: Seq<char>,
    label: Seq<char>,
    actor: Seq<char>,
    now: i64,
)
    requires
        consistent(s),
        s.has(id),
    ensures
        consistent(s.unlabelled(id, label, actor, now)),
{
    let i = s.issue(id);
    let labels = without_text(i.labels, label, i.labels.len() as int);
    lemma_position(s, id);
    lemma_stored_comments(s, s.position(id));
    lemma_attachments_consistent(s, id, labels, i.dependencies, i.comments);
    let t = s.with_issue(s.position(id), IssueView { labels: labels, ..i });
    lemma_dirty_consistent(t.with_event(id, crate::types::EventType::LabelRemoved, actor, Some(label), None, None, now), id, now);
}

/// Moving the counter of comment ids on keeps it past the comments that
/// it was past.
pub proof fn lemma_counter_moved(issues: Seq<IssueView>, next: i64, moved: i64)
    requires
        comments_counted(issues, next),
        next <= moved,
    ensures
        comments_counted(issues, moved),
{
    assert forall|p: int| 0 <= p < issues.len() implies comments_below(
        (#[trigger] issues[p]).comments,
        moved,
    ) by {
        assert(comments_below(issues[p].comments, next));
    }
}

/// Adding a comment to an issue keeps a store consistent, where an id is
/// left for the comment.
pub proof fn lemma_commented_consistent(
    s: StoreView,
    id: Seq<char>,
    author: Seq<char>,
    text: Seq<char>,
    now: i64,
)
    requires
        consistent(s),
        s.has(id),
        s.fresh_comment_id() <= i64::MAX,
    ensures
        consistent(s.commented(id, author, text, now)),
{
    lemma_position(s, id);
    lemma_fresh_comment_id(s);
    let p = s.position(id);
    let i = s.issue(id);
    let fresh = s.fresh_comment_id() as i64;
    let moved = crate::store::next_number(fresh);
    let added = s.next_comment(id, author, text, now);
    let comments = i.comments.push(added);
    let raised = StoreView { next_comment_id: moved, ..s };
    lemma_counter_moved(s.issues, s.next_comment_id, moved);
    assert(consistent(raised));
    assert(comments_below(comments, moved)) by {
        assert forall|c: int| 0 <= c < comments.len() implies (#[trigger] comments[c]).id < moved
            || moved == i64::MAX by {
            if c < i.comments.len() {
                assert(comments[c] == s.issues[p].comments[c]);
            }
        }
    }
    assert(raised.position(id) == p);
    assert(raised.issue(id) == i);
    lemma_attachments_consistent(raised, id, i.labels, i.dependencies, comments);
    let t = raised.with_issue(p, IssueView { comments: comments, ..i });
    lemma_dirty_consistent(
        t.with_event(id, crate::types::EventType::Commented, author, None, None, Some(text), now),
        id,
        now,
    );
}

proof fn lemma_without_mark(list: Seq<DirtyMarkView>, t: Seq<char>, k: int)
    requires
        0 <= k <= list.len(),
        dirty_ids(list).no_duplicates(),
    ensures
        dirty_ids(without_mark(list, t, k)).no_duplicates(),
        forall|i: int|
            0 <= i < without_mark(list, t, k).len() ==> exists|j: int|
                0 <= j < k && #[trigger] list[j] == #[trigger] without_mark(list, t, k)[i],
    decreases k,
{
    if k > 0 {
        lemma_without_mark(list, t, k - 1);
        let before = without_mark(list, t, k - 1);
        let after = without_mark(list, t, k);
        if list[k - 1].issue_id != t {
            assert(after == before.push(list[k - 1]));
            let ids = dirty_ids(after);
            assert forall|i: int| 0 <= i < after.len() implies exists|j: int|
                0 <= j < k && #[trigger] list[j] == #[trigger] after[i] by {
                if i < before.len() {
                    let w = choose|w: int| 0 <= w < k - 1 && #[trigger] list[w] == before[i];
                    assert(list[w] == after[i]);
                } else {
                    assert(list[k - 1] == after[i]);
                }
            }
            assert forall|i: int, j: int|
                0 <= i < ids.len() && 0 <= j < ids.len() && i != j implies ids[i] != ids[j] by {
                if i < before.len() && j < before.len() {
                    assert(dirty_ids(before)[i] != dirty_ids(before)[j]);
                } else if i < before.len() {
                    let w = choose|w: int| 0 <= w < k - 1 && #[trigger] list[w] == before[i];
                    assert(dirty_ids(list)[w] != dirty_ids(list)[k - 1]);
                } else if j < before.len() {
                    let w = choose|w: int| 0 <= w < k - 1 && #[trigger] list[w] == before[j];
                    assert(dirty_ids(list)[w] != dirty_ids(list)[k - 1]);
                }
            }
        } else {
            assert forall|i: int| 0 <= i < after.len() implies exists|j: int|
                0 <= j < k && #[trigger] list[j] == #[trigger] after[i] by {
                let w = choose|w: int| 0 <= w < k - 1 && #[trigger] list[w] == before[i];
                assert(list[w] == after[i]);
            }
        }
    }
}

/// A list of issues that differs from a list of well-kept issues with
/// distinct ids in labels, comments and edges alone is such a list too.
proof fn lemma_same_fields(a: Seq<IssueView>, b: Seq<IssueView>)
    requires
        a.len() == b.len(),
        unique_ids(a),
        unique_refs(a),
        forall|q: int| 0 <= q < a.len() ==> well_kept(#[trigger] a[q]),
        forall|q: int|
            0 <= q < a.len() ==> #[trigger] b[q] == (IssueView {
                labels: b[q].labels,
                dependencies: b[q].dependencies,
                comments: b[q].comments,
                ..a[q]
            }),
    ensures
        unique_ids(b),
        unique_refs(b),
        forall|q: int| 0 <= q < b.len() ==> well_kept(#[trigger] b[q]),
{
    assert forall|i: int, j: int| 0 <= i < j < b.len() implies (#[trigger] b[i]).id != (
    #[trigger] b[j]).id by {
        assert(b[i].id == a[i].id);
        assert(b[j].id == a[j].id);
    }
    assert forall|p: int, q: int|
        0 <= p < b.len() && 0 <= q < b.len() && p != q && (#[trigger] b[p]).external_ref
            is Some implies b[p].external_ref != (#[trigger] b[q]).external_ref by {
        assert(b[p].external_ref == a[p].external_ref);
        assert(b[q].external_ref == a[q].external_ref);
    }
    assert forall|q: int| 0 <= q < b.len() implies well_kept(#[trigger] b[q]) by {
        assert(well_kept(a[q]));
    }
}

/// Where an entry of a list stood before another entry was taken out.
spec fn before_removal(q: int, p: int) -> int {
    if q < p {
        q
    } else {
        q + 1
    }
}

proof fn lemma_removed_entry(a: Seq<IssueView>, p: int, q: int)
    requires
        0 <= p < a.len(),
        0 <= q < a.len() - 1,
    ensures
        a.remove(p)[q] == a[before_removal(q, p)],
        0 <= before_removal(q, p) < a.len(),
{
}

/// A list of issues without a repeated id or external reference stays one
/// when an issue is taken out.
proof fn lemma_removed_unique(a: Seq<IssueView>, p: int)
    requires
        0 <= p < a.len(),
        unique_ids(a),
        unique_refs(a),
    ensures
        unique_ids(a.remove(p)),
        unique_refs(a.remove(p)),
{
    let r = a.remove(p);
    assert forall|i: int, j: int|
        0 <= i < r.len() && 0 <= j < r.len() && i != j && (#[trigger] r[i]).external_ref
            is Some implies r[i].external_ref != (#[trigger] r[j]).external_ref by {
        lemma_removed_entry(a, p, i);
        lemma_removed_entry(a, p, j);
        let i0 = before_removal(i, p);
        let j0 = before_removal(j, p);
        assert(i0 != j0);
        assert(a[i0].external_ref is Some ==> a[i0].external_ref != a[j0].external_ref);
    }
    assert forall|i: int, j: int| 0 <= i < j < r.len() implies (#[trigger] r[i]).id != (
    #[trigger] r[j]).id by {
        lemma_removed_entry(a, p, i);
        lemma_removed_entry(a, p, j);
        let i0 = before_removal(i, p);
        let j0 = before_removal(j, p);
        assert(i0 < j0);
        assert(a[i0].id != a[j0].id);
    }
}

/// The loose edges of a store are apart from its issues after an issue is
/// deleted.
proof fn lemma_deleted_loose(s: StoreView, id: Seq<char>)
    requires
        loose_apart(s.issues, s.loose),
        s.has(id),
    ensures
        loose_apart(s.deleted(id).issues, s.deleted(id).loose),
{
    lemma_position(s, id);
    let p = s.position(id);
    let rest = s.issues.remove(p);
    let after = unlinked(rest, id, rest.len() as int);
    let kept = without_target(s.loose, id, s.loose.len() as int);
    crate::store::lemma_unlinked_len(rest, id, rest.len() as int);
    lemma_without_target_apart(s.issues, s.loose, id, s.loose.len() as int);
    assert forall|k: int| 0 <= k < kept.len() implies !has_issue(
        after,
        (#[trigger] kept[k]).issue_id,
    ) by {
        let x = kept[k].issue_id;
        if has_issue(after, x) {
            let q = choose|q: int| 0 <= q < after.len() && #[trigger] after[q].id == x;
            crate::store::lemma_unlinked_index(rest, id, rest.len() as int, q);
            lemma_removed_entry(s.issues, p, q);
            assert(s.issues[before_removal(q, p)].id == x);
            assert(has_issue(s.issues, x));
        }
    }
}

/// Deleting an issue keeps a store consistent.
pub proof fn lemma_deleted_consistent(s: StoreView, id: Seq<char>)
    requires
        consistent(s),
        s.has(id),
    ensures
        consistent(s.deleted(id)),
{
    lemma_deleted_loose(s, id);
    lemma_position(s, id);
    let p = s.position(id);
    let rest = s.issues.remove(p);
    lemma_removed_unique(s.issues, p);
    let after = unlinked(rest, id, rest.len() as int);
    crate::store::lemma_unlinked_len(rest, id, rest.len() as int);
    assert forall|q: int| 0 <= q < rest.len() implies well_kept(#[trigger] rest[q])
        && comments_below(rest[q].comments, s.next_comment_id) by {
        lemma_removed_entry(s.issues, p, q);
        let q0 = before_removal(q, p);
        assert(well_kept(s.issues[q0]));
        lemma_stored_comments(s, q0);
    }
    assert forall|q: int| 0 <= q < rest.len() implies #[trigger] after[q] == (IssueView {
        labels: after[q].labels,
        dependencies: after[q].dependencies,
        comments: rest[q].comments,
        ..rest[q]
    }) by {
        crate::store::lemma_unlinked_index(rest, id, rest.len() as int, q);
    }
    assert forall|q: int| 0 <= q < rest.len() implies #[trigger] after[q] == (IssueView {
        labels: after[q].labels,
        dependencies: after[q].dependencies,
        comments: after[q].comments,
        ..rest[q]
    }) by {
        assert(after[q].comments == rest[q].comments);
    }
    lemma_same_fields(rest, after);
    assert forall|q: int| 0 <= q < after.len() implies comments_below(
        (#[trigger] after[q]).comments,
        s.next_comment_id,
    ) by {
        assert(after[q].comments == rest[q].comments);
        assert(comments_below(rest[q].comments, s.next_comment_id));
    }
    lemma_without_mark(s.dirty, id, s.dirty.len() as int);
}

/// An export keeps a store consistent.
pub proof fn lemma_export_consistent(s: StoreView, log: Seq<IssueView>)
    requires
        consistent(s),
    ensures
        consistent(after_export(s, log)),
{
}

/// Taking in one record keeps a store consistent.
pub proof fn lemma_import_step_consistent(
    st: ImportState,
    record: IssueView,
    actor: Seq<char>,
    now: i64,
)
    requires
        consistent(st.store),
    ensures
        consistent(import_step(st, record, actor, now).store),
{
    let s = st.store;
    if validation_error(record) is None && !ref_conflict(s.issues, record) {
        assert(ref_conflict(s.issues, hashed(record)) == ref_conflict(s.issues, record));
        let moved = counter_past(s.next_comment_id, record.comments);
        lemma_highest_in(record.comments, s.next_comment_id - 1, record.comments.len() as int);
        lemma_counter_moved(s.issues, s.next_comment_id, moved);
        let raised = StoreView { next_comment_id: moved, ..s };
        assert(consistent(raised));
        assert(comments_below(hashed(record).comments, moved));
        assert(raised.has(record.id) == s.has(record.id));
        if s.has(record.id) {
            lemma_position(raised, record.id);
            lemma_replace_consistent(raised, raised.position(record.id), hashed(record));
        } else {
            let rest = without_source(s.loose, record.id, s.loose.len() as int);
            lemma_without_source_apart(s.issues, s.loose, record.id, s.loose.len() as int);
            lemma_loose_consistent(raised, rest);
            lemma_push_consistent(StoreView { loose: rest, ..raised }, hashed(record));
        }
    }
}

/// An import keeps a store consistent.
pub proof fn lemma_import_consistent(
    start: ImportState,
    log: Seq<IssueView>,
    actor: Seq<char>,
    now: i64,
    k: int,
)
    requires
        consistent(start.store),
        0 <= k,
    ensures
        consistent(import_upto(start, log, actor, now, k).store),
    decreases k,
{
    if k > 0 {
        lemma_import_consistent(start, log, actor, now, k - 1);
        lemma_import_step_consistent(
            import_upto(start, log, actor, now, k - 1),
            log[k - 1],
            actor,
            now,
        );
    }
}


/// The edges of a list of issues stay as they are where an issue is
/// replaced by one with the same edges.
pub proof fn lemma_edges_kept(issues: Seq<IssueView>, p: int, i: IssueView, k: int)
    requires
        0 <= p < issues.len(),
        0 <= k <= issues.len(),
        i.dependencies == issues[p].dependencies,
    ensures
        crate::store::edges_upto(issues.update(p, i), k) == crate::store::edges_upto(issues, k),
    decreases k,
{
    if k > 0 {
        lemma_edges_kept(issues, p, i, k - 1);
    }
}

/// Closing the one issue that blocks an open issue of a store makes the
/// open issue ready: the next listing of ready work without a limit holds
/// it, provided that it passes the filter.
pub proof fn lemma_close_unblocks(
    s: StoreView,
    id: Seq<char>,
    blocker: Seq<char>,
    reason: Seq<char>,
    actor: Seq<char>,
    now: i64,
    f: crate::types::WorkFilterView,
    keys: Seq<crate::ranking::SortKey>,
    limit: int,
    result: Seq<IssueView>,
) -> (i: int)
    requires
        s.issues.len() <= usize::MAX,
        s.has(id),
        s.has(blocker),
        id != blocker,
        s.issue(id).status == crate::types::Status::Open,
        crate::work::matches_filter(s.issue(id), f),
        forall|j: int|
            0 <= j < crate::work::blockers_at(
                s.issues,
                s.edges(),
                s.position(id),
            ).len() ==> #[trigger] crate::work::blockers_at(
                s.issues,
                s.edges(),
                s.position(id),
            )[j] == s.position(blocker),
        limit <= 0,
        crate::work::is_listing(
            s.closed(blocker, reason, actor, now).issues,
            keys,
            crate::work::ready_flags(
                s.closed(blocker, reason, actor, now).issues,
                s.closed(blocker, reason, actor, now).edges(),
                f,
            ),
            limit,
            result,
        ),
    ensures
        0 <= i < result.len(),
        result[i] == s.issue(id),
{
    lemma_position(s, id);
    lemma_position(s, blocker);
    let a = s.position(id);
    let b = s.position(blocker);
    let closed = closed_at(s.issue(blocker), now);
    let t = s.closed(blocker, reason, actor, now);
    assert(t.issues == s.issues.update(b, closed)) by {
        let u = s.with_issue(b, closed).with_event(
            blocker,
            crate::types::EventType::Closed,
            actor,
            None,
            None,
            Some(reason),
            now,
        );
        assert(u.with_dirty(blocker, now).issues == u.issues);
    }
    lemma_edges_kept(s.issues, b, closed, s.issues.len() as int);
    assert(crate::store::all_edges(t.issues) == crate::store::all_edges(s.issues));
    assert(t.loose == s.loose);
    assert(t.edges() == s.edges());
    crate::work::lemma_ready_once_blocker_closed(
        s.issues,
        s.edges(),
        f,
        keys,
        limit,
        result,
        a,
        b,
        closed,
    )
}

/// After an export and an import of the log into an empty store, the new
/// store holds under each id what the old one held: the issue with its
/// fields and times, its labels, its edges and its comments, and with the
/// hash of its content.
///
/// This holds of a store that has not exported before, in which every
/// issue is dirty and acceptable and no two issues have the same id or the
/// same external reference.
pub proof fn lemma_round_trip_lookup(s: StoreView, actor: Seq<char>, now: i64, id: Seq<char>)
    requires
        unique_ids(s.issues),
        unique_refs(s.issues),
        forall|p: int| 0 <= p < s.issues.len() ==> validation_error(#[trigger] s.issues[p]) is None,
        s.export_hashes == Map::<Seq<char>, Seq<char>>::empty(),
        forall|p: int|
            0 <= p < s.issues.len() ==> has_text(dirty_ids(s.dirty), (#[trigger] s.issues[p]).id),
        s.has(id),
    ensures
        imported(empty_store(), exported(s, Seq::empty()).log, actor, now).store.has(id),
        imported(empty_store(), exported(s, Seq::empty()).log, actor, now).store.issue(id) == hashed(
            s.issue(id),
        ),
        imported(empty_store(), exported(s, Seq::empty()).log, actor, now).store.issue(id).labels
            == s.issue(id).labels,
        imported(empty_store(), exported(s, Seq::empty()).log, actor, now).store.edges_from(id)
            == s.edges_from(id),
        imported(empty_store(), exported(s, Seq::empty()).log, actor, now).store.issue(id).comments
            == s.issue(id).comments,
{
    let log = exported(s, Seq::empty()).log;
    let t = imported(empty_store(), log, actor, now).store;
    lemma_position(s, id);
    let j = lemma_round_trip(s, actor, now, s.position(id));
    lemma_empty_consistent();
    lemma_import_consistent(
        ImportState {
            store: empty_store(),
            created: Seq::empty(),
            updated: Seq::empty(),
            kept: Seq::empty(),
            conflicts: Seq::empty(),
            rejected: Seq::empty(),
        },
        log,
        actor,
        now,
        log.len() as int,
    );
    assert(t.issues[j].id == id);
    lemma_first_index_exists(t.issues, id, j);
    let f = first_index(t.issues, id);
    if f < j {
        assert(t.issues[f].id != t.issues[j].id);
    }
    assert(t.position(id) == j);
}

} // verus!
