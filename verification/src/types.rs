//! Core data structures of the tracker and their mathematical views.
//!
//! Every record that carries text has a view in which each `String` is a
//! `Seq<char>` and each `Vec` a `Seq`; contracts elsewhere in the crate speak
//! of those views. Points in time are microseconds since the Unix epoch.

use vstd::prelude::*;

verus! {

/// The state of an issue.
#[derive(Debug, Clone, Copy, PartialEq, Eq, Structural)]
pub enum Status {
    Open,
    InProgress,
    Blocked,
    Closed,
}

impl Status {
    /// The canonical text of a status.
    pub open spec fn spec_str(self) -> Seq<char> {
        match self {
            Status::Open => "open"@,
            Status::InProgress => "in_progress"@,
            Status::Blocked => "blocked"@,
            Status::Closed => "closed"@,
        }
    }

    /// Every variant is a valid status.
    pub fn is_valid(&self) -> (ok: bool)
        ensures
            ok,
    {
        true
    }

    pub fn as_str(&self) -> (s: &'static str)
        ensures
            s@ == self.spec_str(),
    {
        match self {
            Status::Open => "open",
            Status::InProgress => "in_progress",
            Status::Blocked => "blocked",
            Status::Closed => "closed",
        }
    }
}

/// The kind of work an issue stands for.
#[derive(Debug, Clone, Copy, PartialEq, Eq, Structural)]
pub enum IssueType {
    Bug,
    Feature,
    Task,
    Epic,
    Chore,
}

impl IssueType {
    /// The canonical text of an issue type.
    pub open spec fn spec_str(self) -> Seq<char> {
        match self {
            IssueType::Bug => "bug"@,
            IssueType::Feature => "feature"@,
            IssueType::Task => "task"@,
            IssueType::Epic => "epic"@,
            IssueType::Chore => "chore"@,
        }
    }

    /// Every variant is a valid issue type.
    pub fn is_valid(&self) -> (ok: bool)
        ensures
            ok,
    {
        true
    }

    pub fn as_str(&self) -> (s: &'static str)
        ensures
            s@ == self.spec_str(),
    {
        match self {
            IssueType::Bug => "bug",
            IssueType::Feature => "feature",
            IssueType::Task => "task",
            IssueType::Epic => "epic",
            IssueType::Chore => "chore",
        }
    }
}

/// The kind of relationship a dependency edge records.
#[derive(Debug, Clone, Copy, PartialEq, Eq, Structural)]
pub enum DependencyType {
    Blocks,
    Related,
    ParentChild,
    DiscoveredFrom,
}

impl DependencyType {
    /// The canonical text of a dependency type.
    pub open spec fn spec_str(self) -> Seq<char> {
        match self {
            DependencyType::Blocks => "blocks"@,
            DependencyType::Related => "related"@,
            DependencyType::ParentChild => "parent-child"@,
            DependencyType::DiscoveredFrom => "discovered-from"@,
        }
    }

    /// Whether edges of this type constrain the order of work. Only these
    /// edges take part in cycle detection and in the counts per issue.
    pub open spec fn spec_is_ordering(self) -> bool {
        self == DependencyType::Blocks || self == DependencyType::ParentChild
    }

    /// Every variant is a valid dependency type.
    pub fn is_valid(&self) -> (ok: bool)
        ensures
            ok,
    {
        true
    }

    pub fn as_str(&self) -> (s: &'static str)
        ensures
            s@ == self.spec_str(),
    {
        match self {
            DependencyType::Blocks => "blocks",
            DependencyType::Related => "related",
            DependencyType::ParentChild => "parent-child",
            DependencyType::DiscoveredFrom => "discovered-from",
        }
    }

    #[verifier::when_used_as_spec(spec_is_ordering)]
    pub fn is_ordering(self) -> (b: bool)
        ensures
            b == self.spec_is_ordering(),
    {
        match self {
            DependencyType::Blocks => true,
            DependencyType::ParentChild => true,
            _ => false,
        }
    }
}

/// The kind of change an audit event records.
#[derive(Debug, Clone, Copy, PartialEq, Eq, Structural)]
pub enum EventType {
    Created,
    Updated,
    StatusChanged,
    Commented,
    Closed,
    Reopened,
    DependencyAdded,
    DependencyRemoved,
    LabelAdded,
    LabelRemoved,
    Compacted,
}

/// How ready work is ordered.
#[derive(Debug, Clone, Copy, PartialEq, Eq, Structural)]
pub enum SortPolicy {
    /// Issues created within the last 48 hours by priority, then the older
    /// ones by age.
    Hybrid,
    /// By priority, then by creation time.
    Priority,
    /// By creation time, oldest first.
    Oldest,
}

impl SortPolicy {
    /// Every variant is a valid policy.
    pub fn is_valid(&self) -> (ok: bool)
        ensures
            ok,
    {
        true
    }
}

impl Default for SortPolicy {
    fn default() -> (p: Self)
        ensures
            p == SortPolicy::Hybrid,
    {
        SortPolicy::Hybrid
    }
}

/// Whether a count is zero.
pub fn is_zero(n: &i32) -> (z: bool)
    ensures
        z == (*n == 0),
{
    *n == 0
}

/// The view of an optional text.
pub open spec fn opt_text(o: Option<String>) -> Option<Seq<char>> {
    match o {
        Some(s) => Some(s@),
        None => None,
    }
}

/// A directed edge between two issues: `issue_id` depends on `depends_on_id`.
#[derive(Debug, PartialEq, Eq)]
pub struct Dependency {
    pub issue_id: String,
    pub depends_on_id: String,
    pub dep_type: DependencyType,
    pub created_at: i64,
    pub created_by: String,
}

pub struct DependencyView {
    pub issue_id: Seq<char>,
    pub depends_on_id: Seq<char>,
    pub dep_type: DependencyType,
    pub created_at: i64,
    pub created_by: Seq<char>,
}

impl View for Dependency {
    type V = DependencyView;

    open spec fn view(&self) -> DependencyView {
        DependencyView {
            issue_id: self.issue_id@,
            depends_on_id: self.depends_on_id@,
            dep_type: self.dep_type,
            created_at: self.created_at,
            created_by: self.created_by@,
        }
    }
}

impl DeepView for Dependency {
    type V = DependencyView;

    open spec fn deep_view(&self) -> DependencyView {
        self@
    }
}

impl Clone for Dependency {
    fn clone(&self) -> (r: Self)
        ensures
            r@ == self@,
    {
        Dependency {
            issue_id: self.issue_id.clone(),
            depends_on_id: self.depends_on_id.clone(),
            dep_type: self.dep_type,
            created_at: self.created_at,
            created_by: self.created_by.clone(),
        }
    }
}

/// How many ordering edges leave an issue and how many arrive at it.
#[derive(Debug, Clone, Copy, PartialEq, Eq, Structural)]
pub struct DependencyCounts {
    pub dependency_count: i32,
    pub dependent_count: i32,
}

/// A tag on an issue.
#[derive(Debug, PartialEq, Eq)]
pub struct Label {
    pub issue_id: String,
    pub label: String,
}

pub struct LabelView {
    pub issue_id: Seq<char>,
    pub label: Seq<char>,
}

impl View for Label {
    type V = LabelView;

    open spec fn view(&self) -> LabelView {
        LabelView { issue_id: self.issue_id@, label: self.label@ }
    }
}

impl DeepView for Label {
    type V = LabelView;

    open spec fn deep_view(&self) -> LabelView {
        self@
    }
}

impl Clone for Label {
    fn clone(&self) -> (r: Self)
        ensures
            r@ == self@,
    {
        Label { issue_id: self.issue_id.clone(), label: self.label.clone() }
    }
}

/// A mark on an issue that has changed since the last export, with the
/// time at which it was first marked.
#[derive(Debug, PartialEq, Eq)]
pub struct DirtyMark {
    pub issue_id: String,
    pub marked_at: i64,
}

pub struct DirtyMarkView {
    pub issue_id: Seq<char>,
    pub marked_at: i64,
}

impl View for DirtyMark {
    type V = DirtyMarkView;

    open spec fn view(&self) -> DirtyMarkView {
        DirtyMarkView { issue_id: self.issue_id@, marked_at: self.marked_at }
    }
}

impl DeepView for DirtyMark {
    type V = DirtyMarkView;

    open spec fn deep_view(&self) -> DirtyMarkView {
        self@
    }
}

impl Clone for DirtyMark {
    fn clone(&self) -> (r: Self)
        ensures
            r@ == self@,
    {
        DirtyMark { issue_id: self.issue_id.clone(), marked_at: self.marked_at }
    }
}

/// A comment on an issue.
#[derive(Debug, PartialEq, Eq)]
pub struct Comment {
    pub id: i64,
    pub issue_id: String,
    pub author: String,
    pub text: String,
    pub created_at: i64,
}

pub struct CommentView {
    pub id: i64,
    pub issue_id: Seq<char>,
    pub author: Seq<char>,
    pub text: Seq<char>,
    pub created_at: i64,
}

impl View for Comment {
    type V = CommentView;

    open spec fn view(&self) -> CommentView {
        CommentView {
            id: self.id,
            issue_id: self.issue_id@,
            author: self.author@,
            text: self.text@,
            created_at: self.created_at,
        }
    }
}

impl DeepView for Comment {
    type V = CommentView;

    open spec fn deep_view(&self) -> CommentView {
        self@
    }
}

impl Clone for Comment {
    fn clone(&self) -> (r: Self)
        ensures
            r@ == self@,
    {
        Comment {
            id: self.id,
            issue_id: self.issue_id.clone(),
            author: self.author.clone(),
            text: self.text.clone(),
            created_at: self.created_at,
        }
    }
}

/// An entry of the audit trail. Events are appended and never changed.
#[derive(Debug, PartialEq, Eq)]
pub struct Event {
    pub id: i64,
    pub issue_id: String,
    pub event_type: EventType,
    pub actor: String,
    pub old_value: Option<String>,
    pub new_value: Option<String>,
    pub comment: Option<String>,
    pub created_at: i64,
}

pub struct EventView {
    pub id: i64,
    pub issue_id: Seq<char>,
    pub event_type: EventType,
    pub actor: Seq<char>,
    pub old_value: Option<Seq<char>>,
    pub new_value: Option<Seq<char>>,
    pub comment: Option<Seq<char>>,
    pub created_at: i64,
}

impl View for Event {
    type V = EventView;

    open spec fn view(&self) -> EventView {
        EventView {
            id: self.id,
            issue_id: self.issue_id@,
            event_type: self.event_type,
            actor: self.actor@,
            old_value: opt_text(self.old_value),
            new_value: opt_text(self.new_value),
            comment: opt_text(self.comment),
            created_at: self.created_at,
        }
    }
}

impl DeepView for Event {
    type V = EventView;

    open spec fn deep_view(&self) -> EventView {
        self@
    }
}

/// A copy of an optional text.
pub fn clone_opt_text(o: &Option<String>) -> (r: Option<String>)
    ensures
        opt_text(r) == opt_text(*o),
{
    match o {
        Some(s) => Some(s.clone()),
        None => None,
    }
}

/// A copy of a list of texts.
pub fn clone_texts(v: &Vec<String>) -> (r: Vec<String>)
    ensures
        r.deep_view() == v.deep_view(),
{
    let mut r: Vec<String> = Vec::new();
    let mut i: usize = 0;
    while i < v.len()
        invariant
            i <= v.len(),
            r.len() == i,
            forall|k: int| 0 <= k < i ==> r[k]@ == v[k]@,
        decreases v.len() - i,
    {
        r.push(v[i].clone());
        i = i + 1;
    }
    assert(r.deep_view() =~= v.deep_view());
    r
}

impl Clone for Event {
    fn clone(&self) -> (r: Self)
        ensures
            r@ == self@,
    {
        Event {
            id: self.id,
            issue_id: self.issue_id.clone(),
            event_type: self.event_type,
            actor: self.actor.clone(),
            old_value: clone_opt_text(&self.old_value),
            new_value: clone_opt_text(&self.new_value),
            comment: clone_opt_text(&self.comment),
            created_at: self.created_at,
        }
    }
}

/// A trackable work item.
#[derive(Debug, PartialEq, Eq)]
pub struct Issue {
    pub id: String,
    pub content_hash: Option<String>,
    pub title: String,
    pub description: String,
    pub design: String,
    pub acceptance_criteria: String,
    pub notes: String,
    pub status: Status,
    pub priority: i32,
    pub issue_type: IssueType,
    pub assignee: String,
    pub estimated_minutes: Option<i32>,
    pub created_at: i64,
    pub updated_at: i64,
    pub closed_at: Option<i64>,
    pub external_ref: Option<String>,
    pub compaction_level: i32,
    pub compacted_at: Option<i64>,
    pub compacted_at_commit: Option<String>,
    pub original_size: i32,
    pub source_repo: String,
    pub labels: Vec<String>,
    pub dependencies: Vec<Dependency>,
    pub comments: Vec<Comment>,
}

pub struct IssueView {
    pub id: Seq<char>,
    pub content_hash: Option<Seq<char>>,
    pub title: Seq<char>,
    pub description: Seq<char>,
    pub design: Seq<char>,
    pub acceptance_criteria: Seq<char>,
    pub notes: Seq<char>,
    pub status: Status,
    pub priority: i32,
    pub issue_type: IssueType,
    pub assignee: Seq<char>,
    pub estimated_minutes: Option<i32>,
    pub created_at: i64,
    pub updated_at: i64,
    pub closed_at: Option<i64>,
    pub external_ref: Option<Seq<char>>,
    pub compaction_level: i32,
    pub compacted_at: Option<i64>,
    pub compacted_at_commit: Option<Seq<char>>,
    pub original_size: i32,
    pub source_repo: Seq<char>,
    pub labels: Seq<Seq<char>>,
    pub dependencies: Seq<DependencyView>,
    pub comments: Seq<CommentView>,
}

impl View for Issue {
    type V = IssueView;

    open spec fn view(&self) -> IssueView {
        IssueView {
            id: self.id@,
            content_hash: opt_text(self.content_hash),
            title: self.title@,
            description: self.description@,
            design: self.design@,
            acceptance_criteria: self.acceptance_criteria@,
            notes: self.notes@,
            status: self.status,
            priority: self.priority,
            issue_type: self.issue_type,
            assignee: self.assignee@,
            estimated_minutes: self.estimated_minutes,
            created_at: self.created_at,
            updated_at: self.updated_at,
            closed_at: self.closed_at,
            external_ref: opt_text(self.external_ref),
            compaction_level: self.compaction_level,
            compacted_at: self.compacted_at,
            compacted_at_commit: opt_text(self.compacted_at_commit),
            original_size: self.original_size,
            source_repo: self.source_repo@,
            labels: self.labels.deep_view(),
            dependencies: self.dependencies.deep_view(),
            comments: self.comments.deep_view(),
        }
    }
}

impl DeepView for Issue {
    type V = IssueView;

    open spec fn deep_view(&self) -> IssueView {
        self@
    }
}

/// A copy of a list of dependency edges.
pub fn clone_dependencies(v: &Vec<Dependency>) -> (r: Vec<Dependency>)
    ensures
        r.deep_view() == v.deep_view(),
{
    let mut r: Vec<Dependency> = Vec::new();
    let mut i: usize = 0;
    while i < v.len()
        invariant
            i <= v.len(),
            r.len() == i,
            forall|k: int| 0 <= k < i ==> r[k]@ == v[k]@,
        decreases v.len() - i,
    {
        r.push(v[i].clone());
        i = i + 1;
    }
    assert(r.deep_view() =~= v.deep_view());
    r
}

/// A copy of a list of comments.
pub fn clone_comments(v: &Vec<Comment>) -> (r: Vec<Comment>)
    ensures
        r.deep_view() == v.deep_view(),
{
    let mut r: Vec<Comment> = Vec::new();
    let mut i: usize = 0;
    while i < v.len()
        invariant
            i <= v.len(),
            r.len() == i,
            forall|k: int| 0 <= k < i ==> r[k]@ == v[k]@,
        decreases v.len() - i,
    {
        r.push(v[i].clone());
        i = i + 1;
    }
    assert(r.deep_view() =~= v.deep_view());
    r
}

impl Clone for Issue {
    fn clone(&self) -> (r: Self)
        ensures
            r@ == self@,
    {
        Issue {
            id: self.id.clone(),
            content_hash: clone_opt_text(&self.content_hash),
            title: self.title.clone(),
            description: self.description.clone(),
            design: self.design.clone(),
            acceptance_criteria: self.acceptance_criteria.clone(),
            notes: self.notes.clone(),
            status: self.status,
            priority: self.priority,
            issue_type: self.issue_type,
            assignee: self.assignee.clone(),
            estimated_minutes: self.estimated_minutes,
            created_at: self.created_at,
            updated_at: self.updated_at,
            closed_at: self.closed_at,
            external_ref: clone_opt_text(&self.external_ref),
            compaction_level: self.compaction_level,
            compacted_at: self.compacted_at,
            compacted_at_commit: clone_opt_text(&self.compacted_at_commit),
            original_size: self.original_size,
            source_repo: self.source_repo.clone(),
            labels: clone_texts(&self.labels),
            dependencies: clone_dependencies(&self.dependencies),
            comments: clone_comments(&self.comments),
        }
    }
}

/// An issue together with the type of the edge that led to it.
#[derive(Debug, Clone, PartialEq, Eq)]
pub struct IssueWithDependencyMetadata {
    pub issue: Issue,
    pub dependency_type: DependencyType,
}

pub struct IssueWithDependencyMetadataView {
    pub issue: IssueView,
    pub dependency_type: DependencyType,
}

impl View for IssueWithDependencyMetadata {
    type V = IssueWithDependencyMetadataView;

    open spec fn view(&self) -> IssueWithDependencyMetadataView {
        IssueWithDependencyMetadataView {
            issue: self.issue@,
            dependency_type: self.dependency_type,
        }
    }
}

impl DeepView for IssueWithDependencyMetadata {
    type V = IssueWithDependencyMetadataView;

    open spec fn deep_view(&self) -> IssueWithDependencyMetadataView {
        self@
    }
}

/// An issue together with its edge counts.
#[derive(Debug, Clone, PartialEq, Eq)]
pub struct IssueWithCounts {
    pub issue: Issue,
    pub dependency_count: i32,
    pub dependent_count: i32,
}

pub struct IssueWithCountsView {
    pub issue: IssueView,
    pub dependency_count: i32,
    pub dependent_count: i32,
}

impl View for IssueWithCounts {
    type V = IssueWithCountsView;

    open spec fn view(&self) -> IssueWithCountsView {
        IssueWithCountsView {
            issue: self.issue@,
            dependency_count: self.dependency_count,
            dependent_count: self.dependent_count,
        }
    }
}

impl DeepView for IssueWithCounts {
    type V = IssueWithCountsView;

    open spec fn deep_view(&self) -> IssueWithCountsView {
        self@
    }
}

/// An issue held back by unresolved blockers, with their ids.
#[derive(Debug, Clone, PartialEq, Eq)]
pub struct BlockedIssue {
    pub issue: Issue,
    pub blocked_by_count: i32,
    pub blocked_by: Vec<String>,
}

pub struct BlockedIssueView {
    pub issue: IssueView,
    pub blocked_by_count: i32,
    pub blocked_by: Seq<Seq<char>>,
}

impl View for BlockedIssue {
    type V = BlockedIssueView;

    open spec fn view(&self) -> BlockedIssueView {
        BlockedIssueView {
            issue: self.issue@,
            blocked_by_count: self.blocked_by_count,
            blocked_by: self.blocked_by.deep_view(),
        }
    }
}

impl DeepView for BlockedIssue {
    type V = BlockedIssueView;

    open spec fn deep_view(&self) -> BlockedIssueView {
        self@
    }
}

/// A node of a dependency tree, in the order of the traversal.
#[derive(Debug, Clone, PartialEq, Eq)]
pub struct TreeNode {
    pub issue: Issue,
    pub depth: i32,
    pub parent_id: String,
    pub truncated: bool,
}

pub struct TreeNodeView {
    pub issue: IssueView,
    pub depth: i32,
    pub parent_id: Seq<char>,
    pub truncated: bool,
}

impl View for TreeNode {
    type V = TreeNodeView;

    open spec fn view(&self) -> TreeNodeView {
        TreeNodeView {
            issue: self.issue@,
            depth: self.depth,
            parent_id: self.parent_id@,
            truncated: self.truncated,
        }
    }
}

impl DeepView for TreeNode {
    type V = TreeNodeView;

    open spec fn deep_view(&self) -> TreeNodeView {
        self@
    }
}

/// An epic with the state of its children.
#[derive(Debug, Clone, PartialEq, Eq)]
pub struct EpicStatus {
    pub epic: Issue,
    pub total_children: i32,
    pub closed_children: i32,
    pub eligible_for_close: bool,
}

pub struct EpicStatusView {
    pub epic: IssueView,
    pub total_children: i32,
    pub closed_children: i32,
    pub eligible_for_close: bool,
}

impl View for EpicStatus {
    type V = EpicStatusView;

    open spec fn view(&self) -> EpicStatusView {
        EpicStatusView {
            epic: self.epic@,
            total_children: self.total_children,
            closed_children: self.closed_children,
            eligible_for_close: self.eligible_for_close,
        }
    }
}

impl DeepView for EpicStatus {
    type V = EpicStatusView;

    open spec fn deep_view(&self) -> EpicStatusView {
        self@
    }
}

/// Aggregate counts over a store. The lead time of the closed issues is kept
/// as a sum, in whole seconds, beside their number; a caller that wants the
/// mean divides the one by the other.
#[derive(Debug, Clone, Copy, PartialEq, Eq, Structural)]
pub struct Statistics {
    pub total_issues: i32,
    pub open_issues: i32,
    pub in_progress_issues: i32,
    pub closed_issues: i32,
    pub blocked_issues: i32,
    pub ready_issues: i32,
    pub epics_eligible_for_closure: i32,
    pub lead_time_seconds: i64,
    pub lead_time_samples: i32,
}

/// Selects issues in a search.
#[derive(Debug, Clone, PartialEq, Eq)]
pub struct IssueFilter {
    pub status: Option<Status>,
    pub priority: Option<i32>,
    pub issue_type: Option<IssueType>,
    pub assignee: Option<String>,
    /// Labels the issue must all carry.
    pub labels: Vec<String>,
    /// Labels of which the issue must carry at least one.
    pub labels_any: Vec<String>,
    pub title_search: String,
    pub ids: Vec<String>,
    pub limit: i32,
    pub title_contains: String,
    pub description_contains: String,
    pub notes_contains: String,
    pub created_after: Option<i64>,
    pub created_before: Option<i64>,
    pub updated_after: Option<i64>,
    pub updated_before: Option<i64>,
    pub closed_after: Option<i64>,
    pub closed_before: Option<i64>,
    pub empty_description: bool,
    pub no_assignee: bool,
    pub no_labels: bool,
    pub priority_min: Option<i32>,
    pub priority_max: Option<i32>,
}

impl Default for IssueFilter {
    fn default() -> (f: Self)
        ensures
            f.status is None,
            f.priority is None,
            f.issue_type is None,
            f.assignee is None,
            f.labels@.len() == 0,
            f.labels_any@.len() == 0,
            f.title_search@.len() == 0,
            f.ids@.len() == 0,
            f.limit == 0,
            f.title_contains@.len() == 0,
            f.description_contains@.len() == 0,
            f.notes_contains@.len() == 0,
            f.created_after is None,
            f.created_before is None,
            f.updated_after is None,
            f.updated_before is None,
            f.closed_after is None,
            f.closed_before is None,
            !f.empty_description,
            !f.no_assignee,
            !f.no_labels,
            f.priority_min is None,
            f.priority_max is None,
    {
        IssueFilter {
            status: None,
            priority: None,
            issue_type: None,
            assignee: None,
            labels: Vec::new(),
            labels_any: Vec::new(),
            title_search: String::new(),
            ids: Vec::new(),
            limit: 0,
            title_contains: String::new(),
            description_contains: String::new(),
            notes_contains: String::new(),
            created_after: None,
            created_before: None,
            updated_after: None,
            updated_before: None,
            closed_after: None,
            closed_before: None,
            empty_description: false,
            no_assignee: false,
            no_labels: false,
            priority_min: None,
            priority_max: None,
        }
    }
}

/// Selects and orders ready work.
#[derive(Debug, Clone, PartialEq, Eq)]
pub struct WorkFilter {
    pub status: Status,
    pub priority: Option<i32>,
    pub assignee: Option<String>,
    /// Labels the issue must all carry.
    pub labels: Vec<String>,
    /// Labels of which the issue must carry at least one.
    pub labels_any: Vec<String>,
    /// The largest number of issues to return; zero or less for all.
    pub limit: i32,
    pub sort_policy: SortPolicy,
}

pub struct WorkFilterView {
    pub status: Status,
    pub priority: Option<i32>,
    pub assignee: Option<Seq<char>>,
    pub labels: Seq<Seq<char>>,
    pub labels_any: Seq<Seq<char>>,
    pub limit: i32,
    pub sort_policy: SortPolicy,
}

impl View for WorkFilter {
    type V = WorkFilterView;

    open spec fn view(&self) -> WorkFilterView {
        WorkFilterView {
            status: self.status,
            priority: self.priority,
            assignee: opt_text(self.assignee),
            labels: self.labels.deep_view(),
            labels_any: self.labels_any.deep_view(),
            limit: self.limit,
            sort_policy: self.sort_policy,
        }
    }
}

impl Default for WorkFilter {
    fn default() -> (f: Self)
        ensures
            f@ == (WorkFilterView {
                status: Status::Open,
                priority: None,
                assignee: None,
                labels: Seq::empty(),
                labels_any: Seq::empty(),
                limit: 0,
                sort_policy: SortPolicy::Hybrid,
            }),
    {
        let f = WorkFilter {
            status: Status::Open,
            priority: None,
            assignee: None,
            labels: Vec::new(),
            labels_any: Vec::new(),
            limit: 0,
            sort_policy: SortPolicy::Hybrid,
        };
        assert(f.labels.deep_view() =~= Seq::empty());
        assert(f.labels_any.deep_view() =~= Seq::empty());
        f
    }
}

/// Selects stale issues: those not updated for `days` days. An empty
/// `status` selects every issue that is not closed; any other text selects
/// the issues whose status has that text.
#[derive(Debug, Clone, PartialEq, Eq)]
pub struct StaleFilter {
    pub days: i32,
    pub status: String,
    /// The largest number of issues to return; zero or less for all.
    pub limit: i32,
}

} // verus!
