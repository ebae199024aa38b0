//! The mathematical model of a store: what it holds, and what each
//! operation makes of it.

use vstd::prelude::*;
use crate::hash::content_hash;
use crate::index::{first_index, has_issue};
use crate::text::has_text;
use crate::types::{
    CommentView, DependencyView, DirtyMarkView, EventType, EventView, IssueView, Status,
};
use crate::validation::validation_error;

verus! {

/// What a store holds.
///
/// Each issue carries its labels, its comments and the edges that leave
/// it. An edge that was added for an issue that the store does not hold is
/// kept apart, among the loose edges, until that issue is created. The
/// dirty list marks the issues changed since the last export, in the order
/// in which they were first marked.
pub struct StoreView {
    pub issues: Seq<IssueView>,
    pub loose: Seq<DependencyView>,
    pub events: Seq<EventView>,
    pub dirty: Seq<DirtyMarkView>,
    pub export_hashes: Map<Seq<char>, Seq<char>>,
    pub config: Map<Seq<char>, Seq<char>>,
    pub metadata: Map<Seq<char>, Seq<char>>,
    pub counters: Seq<(Seq<char>, i32)>,
    pub next_event_id: i64,
    pub next_comment_id: i64,
    pub path: Seq<char>,
}

/// The number after `id`; the largest number stays.
pub open spec fn next_number(id: i64) -> i64 {
    if id < i64::MAX {
        (id + 1) as i64
    } else {
        id
    }
}

/// An issue as a store keeps it: with the hash of its content.
pub open spec fn hashed(i: IssueView) -> IssueView {
    IssueView { content_hash: Some(content_hash(i)), ..i }
}

/// An issue without labels, edges and comments.
pub open spec fn bare(i: IssueView) -> IssueView {
    IssueView { labels: Seq::empty(), dependencies: Seq::empty(), comments: Seq::empty(), ..i }
}

/// An issue once it is closed at the time `now`.
pub open spec fn closed_at(i: IssueView, now: i64) -> IssueView {
    hashed(IssueView { status: Status::Closed, closed_at: Some(now), updated_at: now, ..i })
}

/// A list of texts without a given text.
pub open spec fn without_text(list: Seq<Seq<char>>, t: Seq<char>, k: int) -> Seq<Seq<char>>
    decreases k,
{
    if k <= 0 {
        Seq::empty()
    } else if list[k - 1] == t {
        without_text(list, t, k - 1)
    } else {
        without_text(list, t, k - 1).push(list[k - 1])
    }
}

/// Whether a list of marks holds one for an issue.
pub open spec fn has_mark(dirty: Seq<DirtyMarkView>, id: Seq<char>) -> bool {
    exists|i: int| 0 <= i < dirty.len() && (#[trigger] dirty[i]).issue_id == id
}

/// The ids of the issues that a list of marks marks, in its order.
pub open spec fn dirty_ids(dirty: Seq<DirtyMarkView>) -> Seq<Seq<char>> {
    Seq::new(dirty.len(), |i: int| dirty[i].issue_id)
}

/// The first `k` marks of a list without those for an issue.
pub open spec fn without_mark(dirty: Seq<DirtyMarkView>, id: Seq<char>, k: int) -> Seq<
    DirtyMarkView,
>
    decreases k,
{
    if k <= 0 {
        Seq::empty()
    } else if dirty[k - 1].issue_id == id {
        without_mark(dirty, id, k - 1)
    } else {
        without_mark(dirty, id, k - 1).push(dirty[k - 1])
    }
}

/// The first `k` marks of a list without those for the issues of a second
/// list.
pub open spec fn without_marks(dirty: Seq<DirtyMarkView>, gone: Seq<Seq<char>>, k: int) -> Seq<
    DirtyMarkView,
>
    decreases k,
{
    if k <= 0 {
        Seq::empty()
    } else if has_text(gone, dirty[k - 1].issue_id) {
        without_marks(dirty, gone, k - 1)
    } else {
        without_marks(dirty, gone, k - 1).push(dirty[k - 1])
    }
}

/// The first `k` edges of a list without those that lead to `target`.
pub open spec fn without_target(deps: Seq<DependencyView>, target: Seq<char>, k: int) -> Seq<
    DependencyView,
>
    decreases k,
{
    if k <= 0 {
        Seq::empty()
    } else if deps[k - 1].depends_on_id == target {
        without_target(deps, target, k - 1)
    } else {
        without_target(deps, target, k - 1).push(deps[k - 1])
    }
}

/// The edges among the first `k` of a list that leave the issue `source`.
pub open spec fn from_source(deps: Seq<DependencyView>, source: Seq<char>, k: int) -> Seq<
    DependencyView,
>
    decreases k,
{
    if k <= 0 {
        Seq::empty()
    } else if deps[k - 1].issue_id == source {
        from_source(deps, source, k - 1).push(deps[k - 1])
    } else {
        from_source(deps, source, k - 1)
    }
}

/// The first `k` edges of a list without those that leave the issue
/// `source`.
pub open spec fn without_source(deps: Seq<DependencyView>, source: Seq<char>, k: int) -> Seq<
    DependencyView,
>
    decreases k,
{
    if k <= 0 {
        Seq::empty()
    } else if deps[k - 1].issue_id == source {
        without_source(deps, source, k - 1)
    } else {
        without_source(deps, source, k - 1).push(deps[k - 1])
    }
}

/// The first `k` edges of a list without those from `source` to `target`.
pub open spec fn without_pair(
    deps: Seq<DependencyView>,
    source: Seq<char>,
    target: Seq<char>,
    k: int,
) -> Seq<DependencyView>
    decreases k,
{
    if k <= 0 {
        Seq::empty()
    } else if deps[k - 1].issue_id == source && deps[k - 1].depends_on_id == target {
        without_pair(deps, source, target, k - 1)
    } else {
        without_pair(deps, source, target, k - 1).push(deps[k - 1])
    }
}

/// Whether a list of edges holds one from `source` to `target`.
pub open spec fn has_pair(deps: Seq<DependencyView>, source: Seq<char>, target: Seq<char>) -> bool {
    exists|k: int|
        0 <= k < deps.len() && (#[trigger] deps[k]).issue_id == source && deps[k].depends_on_id
            == target
}

/// Whether a list of edges holds one that leads to `target`.
pub open spec fn has_target(deps: Seq<DependencyView>, target: Seq<char>) -> bool {
    exists|k: int| 0 <= k < deps.len() && (#[trigger] deps[k]).depends_on_id == target
}

/// The first `k` issues of a list, none of them with an edge to `target`.
pub open spec fn unlinked(issues: Seq<IssueView>, target: Seq<char>, k: int) -> Seq<IssueView>
    decreases k,
{
    if k <= 0 {
        Seq::empty()
    } else {
        unlinked(issues, target, k - 1).push(
            IssueView {
                dependencies: without_target(
                    issues[k - 1].dependencies,
                    target,
                    issues[k - 1].dependencies.len() as int,
                ),
                ..issues[k - 1]
            },
        )
    }
}

impl StoreView {
    /// The store with one more event.
    pub open spec fn with_event(
        self,
        issue_id: Seq<char>,
        event_type: EventType,
        actor: Seq<char>,
        old_value: Option<Seq<char>>,
        new_value: Option<Seq<char>>,
        comment: Option<Seq<char>>,
        now: i64,
    ) -> StoreView {
        StoreView {
            events: self.events.push(
                EventView {
                    id: self.next_event_id,
                    issue_id: issue_id,
                    event_type: event_type,
                    actor: actor,
                    old_value: old_value,
                    new_value: new_value,
                    comment: comment,
                    created_at: now,
                },
            ),
            next_event_id: next_number(self.next_event_id),
            ..self
        }
    }

    /// The store with the issue marked dirty at the time `now`. An issue
    /// that is marked already keeps its mark and its place.
    pub open spec fn with_dirty(self, id: Seq<char>, now: i64) -> StoreView {
        if has_mark(self.dirty, id) {
            self
        } else {
            StoreView {
                dirty: self.dirty.push(DirtyMarkView { issue_id: id, marked_at: now }),
                ..self
            }
        }
    }

    /// The store with the issue at position `p` replaced.
    pub open spec fn with_issue(self, p: int, i: IssueView) -> StoreView {
        StoreView { issues: self.issues.update(p, i), ..self }
    }

    /// The position of the issue that stands for an id.
    pub open spec fn position(self, id: Seq<char>) -> int {
        first_index(self.issues, id)
    }

    /// Whether the store holds an issue with the id.
    pub open spec fn has(self, id: Seq<char>) -> bool {
        has_issue(self.issues, id)
    }

    /// The issue that stands for an id.
    pub open spec fn issue(self, id: Seq<char>) -> IssueView {
        self.issues[self.position(id)]
    }

    /// The loose edges that leave the issue `id`, in the order in which
    /// they were added.
    pub open spec fn loose_from(self, id: Seq<char>) -> Seq<DependencyView> {
        from_source(self.loose, id, self.loose.len() as int)
    }

    /// An issue as it is first kept: without labels and comments, with the
    /// loose edges that were added for its id, and with the hash of its
    /// content.
    pub open spec fn adopted(self, i: IssueView) -> IssueView {
        hashed(IssueView { dependencies: self.loose_from(i.id), ..bare(i) })
    }

    /// The store after an issue is created: the issue is added without
    /// labels and comments and with the hash of its content, the edges that
    /// were added for its id before become its edges, the creation is
    /// recorded, and the issue is marked dirty.
    pub open spec fn created(self, i: IssueView, actor: Seq<char>, now: i64) -> StoreView {
        (StoreView {
            issues: self.issues.push(self.adopted(i)),
            loose: without_source(self.loose, i.id, self.loose.len() as int),
            ..self
        }).with_event(
            i.id,
            EventType::Created,
            actor,
            None,
            None,
            None,
            now,
        ).with_dirty(i.id, now)
    }

    /// The store after an issue is closed.
    pub open spec fn closed(self, id: Seq<char>, reason: Seq<char>, actor: Seq<char>, now: i64) -> StoreView {
        self.with_issue(self.position(id), closed_at(self.issue(id), now)).with_event(
            id,
            EventType::Closed,
            actor,
            None,
            None,
            Some(reason),
            now,
        ).with_dirty(id, now)
    }

    /// The store after an issue is deleted: the issue is gone with its
    /// labels, comments and edges, and so are the edges that led to it,
    /// those of other issues and the loose ones, its dirty mark and its
    /// export hash. The events stay.
    pub open spec fn deleted(self, id: Seq<char>) -> StoreView {
        let rest = self.issues.remove(self.position(id));
        StoreView {
            issues: unlinked(rest, id, rest.len() as int),
            loose: without_target(self.loose, id, self.loose.len() as int),
            dirty: without_mark(self.dirty, id, self.dirty.len() as int),
            export_hashes: self.export_hashes.remove(id),
            ..self
        }
    }

    /// Whether the store has an edge from `from` to `to`: among the edges
    /// of the issue `from` where the store holds it, else among the loose
    /// edges.
    pub open spec fn has_edge(self, from: Seq<char>, to: Seq<char>) -> bool {
        if self.has(from) {
            has_target(self.issue(from).dependencies, to)
        } else {
            has_pair(self.loose, from, to)
        }
    }

    /// The store after an edge is added for an issue that it does not
    /// hold: the edge is loose, the addition is recorded, and the id is
    /// marked dirty.
    pub open spec fn linked_loose(self, d: DependencyView, actor: Seq<char>, now: i64) -> StoreView {
        (StoreView { loose: self.loose.push(d), ..self }).with_event(
            d.issue_id,
            EventType::DependencyAdded,
            actor,
            None,
            Some(d.depends_on_id),
            None,
            now,
        ).with_dirty(d.issue_id, now)
    }

    /// The store after the loose edges from `from` to `to` are removed.
    pub open spec fn unlinked_loose(
        self,
        from: Seq<char>,
        to: Seq<char>,
        actor: Seq<char>,
        now: i64,
    ) -> StoreView {
        (StoreView {
            loose: without_pair(self.loose, from, to, self.loose.len() as int),
            ..self
        }).with_event(from, EventType::DependencyRemoved, actor, Some(to), None, None, now).with_dirty(
            from,
            now,
        )
    }

    /// The store after an edge is added: to the edges of the issue that it
    /// leaves where the store holds that issue, else to the loose edges.
    pub open spec fn with_edge(self, d: DependencyView, actor: Seq<char>, now: i64) -> StoreView {
        if self.has(d.issue_id) {
            self.linked(d, actor, now)
        } else {
            self.linked_loose(d, actor, now)
        }
    }

    /// The store after the edges from `from` to `to` are removed: from the
    /// edges of the issue `from` where the store holds it, else from the
    /// loose edges.
    pub open spec fn without_edge(
        self,
        from: Seq<char>,
        to: Seq<char>,
        actor: Seq<char>,
        now: i64,
    ) -> StoreView {
        if self.has(from) {
            self.unlinked_edge(from, to, actor, now)
        } else {
            self.unlinked_loose(from, to, actor, now)
        }
    }

    /// All edges of the store: those of its issues, issue after issue,
    /// then the loose ones.
    pub open spec fn edges(self) -> Seq<DependencyView> {
        all_edges(self.issues) + self.loose
    }

    /// The edges that leave the issue `id`: its own where the store holds
    /// it, else the loose edges that were added for it.
    pub open spec fn edges_from(self, id: Seq<char>) -> Seq<DependencyView> {
        if self.has(id) {
            self.issue(id).dependencies
        } else {
            self.loose_from(id)
        }
    }

    /// The store after an edge is added to an issue that it holds.
    pub open spec fn linked(self, d: DependencyView, actor: Seq<char>, now: i64) -> StoreView {
        let p = self.position(d.issue_id);
        let i = self.issues[p];
        self.with_issue(p, IssueView { dependencies: i.dependencies.push(d), ..i }).with_event(
            d.issue_id,
            EventType::DependencyAdded,
            actor,
            None,
            Some(d.depends_on_id),
            None,
            now,
        ).with_dirty(d.issue_id, now)
    }

    /// The store after the edges from `from` to `to` are removed from an
    /// issue that it holds.
    pub open spec fn unlinked_edge(
        self,
        from: Seq<char>,
        to: Seq<char>,
        actor: Seq<char>,
        now: i64,
    ) -> StoreView {
        let p = self.position(from);
        let i = self.issues[p];
        self.with_issue(
            p,
            IssueView {
                dependencies: without_target(i.dependencies, to, i.dependencies.len() as int),
                ..i
            },
        ).with_event(from, EventType::DependencyRemoved, actor, Some(to), None, None, now).with_dirty(from, now)
    }

    /// The store after a label is put on an issue. A label that the issue
    /// carries already is not added again; the event is recorded all the
    /// same.
    pub open spec fn labelled(self, id: Seq<char>, label: Seq<char>, actor: Seq<char>, now: i64) -> StoreView {
        let p = self.position(id);
        let i = self.issues[p];
        let labels = if has_text(i.labels, label) {
            i.labels
        } else {
            i.labels.push(label)
        };
        self.with_issue(p, IssueView { labels: labels, ..i }).with_event(
            id,
            EventType::LabelAdded,
            actor,
            None,
            Some(label),
            None,
            now,
        ).with_dirty(id, now)
    }

    /// The store after a label is taken off an issue.
    pub open spec fn unlabelled(self, id: Seq<char>, label: Seq<char>, actor: Seq<char>, now: i64) -> StoreView {
        let p = self.position(id);
        let i = self.issues[p];
        self.with_issue(
            p,
            IssueView { labels: without_text(i.labels, label, i.labels.len() as int), ..i },
        ).with_event(id, EventType::LabelRemoved, actor, Some(label), None, None, now).with_dirty(id, now)
    }

    /// The id that the next comment gets: the number of the counter, or
    /// the number after the highest id of a stored comment where that is
    /// higher. So no stored comment has it.
    pub open spec fn fresh_comment_id(self) -> int {
        highest_comment_id(self.issues, self.next_comment_id - 1, self.issues.len() as int) + 1
    }

    /// The comment that is added next.
    pub open spec fn next_comment(self, id: Seq<char>, author: Seq<char>, text: Seq<char>, now: i64) -> CommentView {
        CommentView {
            id: self.fresh_comment_id() as i64,
            issue_id: id,
            author: author,
            text: text,
            created_at: now,
        }
    }

    /// The store after a comment is added to an issue.
    pub open spec fn commented(self, id: Seq<char>, author: Seq<char>, text: Seq<char>, now: i64) -> StoreView {
        let p = self.position(id);
        let i = self.issues[p];
        (StoreView {
            issues: self.issues.update(
                p,
                IssueView { comments: i.comments.push(self.next_comment(id, author, text, now)), ..i },
            ),
            next_comment_id: next_number(self.fresh_comment_id() as i64),
            ..self
        }).with_event(id, EventType::Commented, author, None, None, Some(text), now).with_dirty(id, now)
    }
}

/// The highest id among the first `k` comments of a list; `floor` where
/// none is higher.
pub open spec fn highest_in(comments: Seq<CommentView>, floor: int, k: int) -> int
    decreases k,
{
    if k <= 0 {
        floor
    } else {
        let before = highest_in(comments, floor, k - 1);
        if comments[k - 1].id > before {
            comments[k - 1].id as int
        } else {
            before
        }
    }
}

/// The highest id among the comments of the first `k` issues; `floor`
/// where none is higher.
pub open spec fn highest_comment_id(issues: Seq<IssueView>, floor: int, k: int) -> int
    decreases k,
{
    if k <= 0 {
        floor
    } else {
        highest_in(
            issues[k - 1].comments,
            highest_comment_id(issues, floor, k - 1),
            issues[k - 1].comments.len() as int,
        )
    }
}

/// The counter of comment ids once it is moved past the comments of a
/// list: the number after the highest of their ids, where that is higher
/// than the counter; the largest number where there is none after it.
pub open spec fn counter_past(next: i64, comments: Seq<CommentView>) -> i64 {
    let after = highest_in(comments, next - 1, comments.len() as int) + 1;
    if after > i64::MAX {
        i64::MAX
    } else {
        after as i64
    }
}

/// Whether the counter of comment ids is past the comments of a list:
/// each id is below it, or it has reached the largest number.
pub open spec fn comments_below(comments: Seq<CommentView>, next: i64) -> bool {
    forall|c: int| 0 <= c < comments.len() ==> (#[trigger] comments[c]).id < next || next == i64::MAX
}

/// Whether the counter of comment ids is past every stored comment.
pub open spec fn comments_counted(issues: Seq<IssueView>, next: i64) -> bool {
    forall|p: int| 0 <= p < issues.len() ==> comments_below((#[trigger] issues[p]).comments, next)
}

/// No comment among the first `k` of a list has an id above the highest,
/// which is not below the floor.
pub proof fn lemma_highest_in(comments: Seq<CommentView>, floor: int, k: int)
    requires
        0 <= k <= comments.len(),
    ensures
        highest_in(comments, floor, k) >= floor,
        forall|c: int| 0 <= c < k ==> (#[trigger] comments[c]).id <= highest_in(comments, floor, k),
        highest_in(comments, floor, k) == floor || exists|c: int|
            0 <= c < k && (#[trigger] comments[c]).id == highest_in(comments, floor, k),
    decreases k,
{
    if k > 0 {
        lemma_highest_in(comments, floor, k - 1);
    }
}

/// No comment of the first `k` issues has an id above the highest, which
/// is not below the floor.
pub proof fn lemma_highest_comment_id(issues: Seq<IssueView>, floor: int, k: int)
    requires
        0 <= k <= issues.len(),
    ensures
        highest_comment_id(issues, floor, k) >= floor,
        forall|p: int, c: int|
            0 <= p < k && 0 <= c < issues[p].comments.len() ==> (
            #[trigger] issues[p].comments[c]).id <= highest_comment_id(issues, floor, k),
    decreases k,
{
    if k > 0 {
        lemma_highest_comment_id(issues, floor, k - 1);
        lemma_highest_in(
            issues[k - 1].comments,
            highest_comment_id(issues, floor, k - 1),
            issues[k - 1].comments.len() as int,
        );
    }
}

/// The id of the next comment is not below the counter and above the id
/// of every stored comment.
pub proof fn lemma_fresh_comment_id(s: StoreView)
    ensures
        s.fresh_comment_id() >= s.next_comment_id,
        forall|p: int, c: int|
            0 <= p < s.issues.len() && 0 <= c < s.issues[p].comments.len() ==> (
            #[trigger] s.issues[p].comments[c]).id < s.fresh_comment_id(),
{
    lemma_highest_comment_id(s.issues, s.next_comment_id - 1, s.issues.len() as int);
}

/// The number of the last child that was given to a parent, going by the
/// first `k` entries of the list of counters; zero where there is none.
pub open spec fn last_child(counters: Seq<(Seq<char>, i32)>, parent: Seq<char>, k: int) -> i32
    decreases k,
{
    if k <= 0 {
        0
    } else if counters[k - 1].0 == parent {
        counters[k - 1].1
    } else {
        last_child(counters, parent, k - 1)
    }
}

/// The edges of the first `k` issues, issue after issue.
pub open spec fn edges_upto(issues: Seq<IssueView>, k: int) -> Seq<DependencyView>
    decreases k,
{
    if k <= 0 {
        Seq::empty()
    } else {
        edges_upto(issues, k - 1) + issues[k - 1].dependencies
    }
}

/// All edges of a list of issues, issue after issue.
pub open spec fn all_edges(issues: Seq<IssueView>) -> Seq<DependencyView> {
    edges_upto(issues, issues.len() as int)
}


/// The status that a text names.
pub open spec fn parse_status(t: Seq<char>) -> Option<Status> {
    if t == Status::Open.spec_str() {
        Some(Status::Open)
    } else if t == Status::InProgress.spec_str() {
        Some(Status::InProgress)
    } else if t == Status::Blocked.spec_str() {
        Some(Status::Blocked)
    } else if t == Status::Closed.spec_str() {
        Some(Status::Closed)
    } else {
        None
    }
}

/// The issue type that a text names.
pub open spec fn parse_issue_type(t: Seq<char>) -> Option<crate::types::IssueType> {
    if t == crate::types::IssueType::Bug.spec_str() {
        Some(crate::types::IssueType::Bug)
    } else if t == crate::types::IssueType::Feature.spec_str() {
        Some(crate::types::IssueType::Feature)
    } else if t == crate::types::IssueType::Task.spec_str() {
        Some(crate::types::IssueType::Task)
    } else if t == crate::types::IssueType::Epic.spec_str() {
        Some(crate::types::IssueType::Epic)
    } else if t == crate::types::IssueType::Chore.spec_str() {
        Some(crate::types::IssueType::Chore)
    } else {
        None
    }
}

/// The priority that a text names: one of the digits 0 to 4.
pub open spec fn parse_priority(t: Seq<char>) -> Option<i32> {
    if t == "0"@ {
        Some(0)
    } else if t == "1"@ {
        Some(1)
    } else if t == "2"@ {
        Some(2)
    } else if t == "3"@ {
        Some(3)
    } else if t == "4"@ {
        Some(4)
    } else {
        None
    }
}

/// An issue with one field set to a new value, or nothing where the field
/// is not known or the value does not fit it.
///
/// A status other than closed takes the closing time away; the status
/// closed sets it to `now` unless the issue has one. An empty external
/// reference stands for none.
pub open spec fn apply_update(i: IssueView, key: Seq<char>, value: Seq<char>, now: i64) -> Option<
    IssueView,
> {
    if key == "title"@ {
        Some(IssueView { title: value, ..i })
    } else if key == "description"@ {
        Some(IssueView { description: value, ..i })
    } else if key == "design"@ {
        Some(IssueView { design: value, ..i })
    } else if key == "acceptance_criteria"@ {
        Some(IssueView { acceptance_criteria: value, ..i })
    } else if key == "notes"@ {
        Some(IssueView { notes: value, ..i })
    } else if key == "assignee"@ {
        Some(IssueView { assignee: value, ..i })
    } else if key == "external_ref"@ {
        Some(
            IssueView {
                external_ref: if value.len() == 0 {
                    None
                } else {
                    Some(value)
                },
                ..i
            },
        )
    } else if key == "status"@ {
        match parse_status(value) {
            Some(s) => Some(
                IssueView {
                    status: s,
                    closed_at: if s == Status::Closed {
                        if i.closed_at is Some {
                            i.closed_at
                        } else {
                            Some(now)
                        }
                    } else {
                        None
                    },
                    ..i
                },
            ),
            None => None,
        }
    } else if key == "priority"@ {
        match parse_priority(value) {
            Some(p) => Some(IssueView { priority: p, ..i }),
            None => None,
        }
    } else if key == "issue_type"@ {
        match parse_issue_type(value) {
            Some(t) => Some(IssueView { issue_type: t, ..i }),
            None => None,
        }
    } else {
        None
    }
}

/// An issue after the first `k` updates of a list, or nothing where one of
/// them cannot be applied.
pub open spec fn apply_updates(
    i: IssueView,
    updates: Seq<(Seq<char>, Seq<char>)>,
    now: i64,
    k: int,
) -> Option<IssueView>
    decreases k,
{
    if k <= 0 {
        Some(i)
    } else {
        match apply_updates(i, updates, now, k - 1) {
            Some(j) => apply_update(j, updates[k - 1].0, updates[k - 1].1, now),
            None => None,
        }
    }
}

/// The updates of a list as pairs of texts.
pub open spec fn updates_view(updates: Seq<(String, String)>) -> Seq<(Seq<char>, Seq<char>)> {
    Seq::new(updates.len(), |i: int| (updates[i].0@, updates[i].1@))
}

impl StoreView {
    /// The store with an event for each of the first `k` updates.
    pub open spec fn with_update_events(
        self,
        id: Seq<char>,
        updates: Seq<(Seq<char>, Seq<char>)>,
        actor: Seq<char>,
        now: i64,
        k: int,
    ) -> StoreView
        decreases k,
    {
        if k <= 0 {
            self
        } else {
            self.with_update_events(id, updates, actor, now, k - 1).with_event(
                id,
                EventType::Updated,
                actor,
                None,
                Some(updates[k - 1].1),
                None,
                now,
            )
        }
    }

    /// The store after an issue is updated to `i`: the issue gets the time
    /// of the update and the hash of its content, each update is recorded,
    /// and the issue is marked dirty.
    pub open spec fn updated(
        self,
        id: Seq<char>,
        i: IssueView,
        updates: Seq<(Seq<char>, Seq<char>)>,
        actor: Seq<char>,
        now: i64,
    ) -> StoreView {
        self.with_issue(
            self.position(id),
            hashed(IssueView { updated_at: now, ..i }),
        ).with_update_events(id, updates, actor, now, updates.len() as int).with_dirty(id, now)
    }
}

/// The message for an update that cannot be applied.
pub open spec fn update_refused(key: Seq<char>) -> Seq<char> {
    "cannot update field: "@ + key
}


/// The issues that the first `k` edges of a list lead to, in the order of
/// the edges. An edge that leads to no issue adds nothing.
pub open spec fn targets_upto(issues: Seq<IssueView>, deps: Seq<DependencyView>, k: int) -> Seq<
    IssueView,
>
    decreases k,
{
    if k <= 0 {
        Seq::empty()
    } else if has_issue(issues, deps[k - 1].depends_on_id) {
        targets_upto(issues, deps, k - 1).push(issues[first_index(issues, deps[k - 1].depends_on_id)])
    } else {
        targets_upto(issues, deps, k - 1)
    }
}

/// Those of the first `k` issues that have an edge to `id`.
pub open spec fn dependents_upto(issues: Seq<IssueView>, id: Seq<char>, k: int) -> Seq<IssueView>
    decreases k,
{
    if k <= 0 {
        Seq::empty()
    } else if has_target(issues[k - 1].dependencies, id) {
        dependents_upto(issues, id, k - 1).push(issues[k - 1])
    } else {
        dependents_upto(issues, id, k - 1)
    }
}

/// Those of the first `k` issues that carry a label.
pub open spec fn labelled_upto(issues: Seq<IssueView>, label: Seq<char>, k: int) -> Seq<IssueView>
    decreases k,
{
    if k <= 0 {
        Seq::empty()
    } else if has_text(issues[k - 1].labels, label) {
        labelled_upto(issues, label, k - 1).push(issues[k - 1])
    } else {
        labelled_upto(issues, label, k - 1)
    }
}

/// Those of the first `k` events that are about an issue.
pub open spec fn events_of(events: Seq<EventView>, id: Seq<char>, k: int) -> Seq<EventView>
    decreases k,
{
    if k <= 0 {
        Seq::empty()
    } else if events[k - 1].issue_id == id {
        events_of(events, id, k - 1).push(events[k - 1])
    } else {
        events_of(events, id, k - 1)
    }
}

/// The text of the id of a child: the id of the parent, a dot, and the
/// number of the child.
pub open spec fn child_id(parent: Seq<char>, number: i32) -> Seq<char> {
    parent + "."@ + crate::text::decimal(number as int)
}


/// The key under which a store keeps the hash of the whole log.
pub open spec fn file_hash_key() -> Seq<char> {
    "jsonl_file_hash"@
}

impl StoreView {
    /// The store after the first `k` issues of a list are created, and
    /// whether all of them were: the creation ends with the first issue
    /// that is refused.
    pub open spec fn created_all(
        self,
        issues: Seq<IssueView>,
        actor: Seq<char>,
        now: i64,
        k: int,
    ) -> (StoreView, bool)
        decreases k,
    {
        if k <= 0 {
            (self, true)
        } else {
            let before = self.created_all(issues, actor, now, k - 1);
            if before.1 && validation_error(issues[k - 1]) is None && !before.0.has(issues[k - 1].id)
                && !ref_conflict(before.0.issues, issues[k - 1]) {
                (before.0.created(issues[k - 1], actor, now), true)
            } else {
                (before.0, false)
            }
        }
    }
}


/// How many of the first `k` issues have a status.
pub open spec fn count_status(issues: Seq<IssueView>, s: Status, k: int) -> nat
    decreases k,
{
    if k <= 0 {
        0
    } else {
        count_status(issues, s, k - 1) + if issues[k - 1].status == s {
            1nat
        } else {
            0nat
        }
    }
}

/// How many of the first `k` flags are set.
pub open spec fn count_set(flags: Seq<bool>, k: int) -> nat
    decreases k,
{
    if k <= 0 {
        0
    } else {
        count_set(flags, k - 1) + if flags[k - 1] {
            1nat
        } else {
            0nat
        }
    }
}

/// How many of the first `k` epics of a report can be closed.
pub open spec fn count_eligible(epics: Seq<crate::types::EpicStatusView>, k: int) -> nat
    decreases k,
{
    if k <= 0 {
        0
    } else {
        count_eligible(epics, k - 1) + if epics[k - 1].eligible_for_close {
            1nat
        } else {
            0nat
        }
    }
}

/// Whether the time from the creation of an issue to its closing counts
/// towards the lead time: the issue is closed, and not before it was
/// created.
pub open spec fn has_lead_time(i: IssueView) -> bool {
    i.status == Status::Closed && i.closed_at is Some && i.closed_at->0 >= i.created_at
}

/// The time from the creation of an issue to its closing, in whole
/// seconds.
pub open spec fn lead_seconds(i: IssueView) -> int {
    (i.closed_at->0 - i.created_at) / 1_000_000
}

/// The sum of the lead times of the first `k` issues, in whole seconds.
pub open spec fn lead_time_sum(issues: Seq<IssueView>, k: int) -> int
    decreases k,
{
    if k <= 0 {
        0
    } else {
        lead_time_sum(issues, k - 1) + if has_lead_time(issues[k - 1]) {
            lead_seconds(issues[k - 1])
        } else {
            0
        }
    }
}

/// How many of the first `k` issues have a lead time.
pub open spec fn lead_time_count(issues: Seq<IssueView>, k: int) -> nat
    decreases k,
{
    if k <= 0 {
        0
    } else {
        lead_time_count(issues, k - 1) + if has_lead_time(issues[k - 1]) {
            1nat
        } else {
            0nat
        }
    }
}

/// A sum as it is stored: the largest number that fits where the sum does
/// not.
pub open spec fn stored_sum(n: int) -> i64 {
    if n > i64::MAX {
        i64::MAX
    } else if n < 0 {
        0
    } else {
        n as i64
    }
}


/// What the issue at position `j` is once the edges to `target` are gone.
pub proof fn lemma_unlinked_index(issues: Seq<IssueView>, target: Seq<char>, k: int, j: int)
    requires
        0 <= j < k <= issues.len(),
    ensures
        unlinked(issues, target, k).len() == k,
        unlinked(issues, target, k)[j] == (IssueView {
            dependencies: without_target(
                issues[j].dependencies,
                target,
                issues[j].dependencies.len() as int,
            ),
            ..issues[j]
        }),
    decreases k,
{
    lemma_unlinked_len(issues, target, k - 1);
    if j < k - 1 {
        lemma_unlinked_index(issues, target, k - 1, j);
    }
}

/// Taking edges away leaves the number of issues as it is.
pub proof fn lemma_unlinked_len(issues: Seq<IssueView>, target: Seq<char>, k: int)
    requires
        0 <= k,
    ensures
        unlinked(issues, target, k).len() == k,
    decreases k,
{
    if k > 0 {
        lemma_unlinked_len(issues, target, k - 1);
    }
}


/// Whether no two issues of a list have the same id.
pub open spec fn unique_ids(issues: Seq<IssueView>) -> bool {
    forall|i: int, j: int|
        0 <= i < j < issues.len() ==> (#[trigger] issues[i]).id != (#[trigger] issues[j]).id
}

/// A store that holds nothing.
pub open spec fn empty_store() -> StoreView {
    StoreView {
        issues: Seq::empty(),
        loose: Seq::empty(),
        events: Seq::empty(),
        dirty: Seq::empty(),
        export_hashes: Map::empty(),
        config: Map::empty(),
        metadata: Map::empty(),
        counters: Seq::empty(),
        next_event_id: 1,
        next_comment_id: 1,
        path: Seq::empty(),
    }
}


/// Whether an issue other than the one with the id `id` carries the
/// external reference `r`.
pub open spec fn ref_taken(issues: Seq<IssueView>, r: Seq<char>, id: Seq<char>) -> bool {
    exists|p: int|
        0 <= p < issues.len() && (#[trigger] issues[p]).external_ref == Some(r) && issues[p].id
            != id
}

/// Whether an issue cannot be kept beside the others because another
/// issue carries its external reference: a reference stands for one issue
/// only.
pub open spec fn ref_conflict(issues: Seq<IssueView>, i: IssueView) -> bool {
    i.external_ref is Some && ref_taken(issues, i.external_ref->0, i.id)
}

/// The message for a record whose external reference is taken.
pub open spec fn reference_refused(r: Seq<char>) -> Seq<char> {
    "external reference is taken: "@ + r
}


/// Whether no two issues of a list carry the same external reference.
pub open spec fn unique_refs(issues: Seq<IssueView>) -> bool {
    forall|p: int, q: int|
        0 <= p < issues.len() && 0 <= q < issues.len() && p != q && (
        #[trigger] issues[p]).external_ref is Some ==> issues[p].external_ref != (
        #[trigger] issues[q]).external_ref
}

} // verus!
