//! A store that keeps everything in memory: what it holds, and the
//! operations on its issues.

use vstd::prelude::*;
use vstd::string::*;
use crate::index::{is_first_index, lemma_first_index_unique};
use crate::storage::{now_micros, StoreError, StoreErrorView};
use crate::store::{
    apply_update, apply_updates, bare, closed_at, from_source, hashed, lemma_unlinked_index,
    lemma_unlinked_len, next_number, parse_issue_type, parse_priority, parse_status, ref_conflict,
    unlinked, update_refused, updates_view, without_mark, without_pair, without_source,
    without_target, without_text, has_mark, StoreView,
};
use crate::text::str_eq;
use crate::textmap::TextMap;
use crate::types::{
    Dependency, DirtyMark, DirtyMarkView, Event, EventType, Issue, IssueType, IssueView, Status,
};
use crate::validation::validation_error;

verus! {

/// A store in memory.
#[derive(Debug, Clone)]
pub struct MemoryStorage {
    pub issues: Vec<Issue>,
    pub loose: Vec<Dependency>,
    pub events: Vec<Event>,
    pub dirty: Vec<DirtyMark>,
    pub export_hashes: TextMap,
    pub config: TextMap,
    pub metadata: TextMap,
    pub counters: Vec<(String, i32)>,
    pub next_event_id: i64,
    pub next_comment_id: i64,
    pub path: String,
}

/// The counters of a list as pairs of a text and a number.
pub open spec fn counters_view(counters: Seq<(String, i32)>) -> Seq<(Seq<char>, i32)> {
    Seq::new(counters.len(), |i: int| (counters[i].0@, counters[i].1))
}

impl View for MemoryStorage {
    type V = StoreView;

    open spec fn view(&self) -> StoreView {
        StoreView {
            issues: self.issues.deep_view(),
            loose: self.loose.deep_view(),
            events: self.events.deep_view(),
            dirty: self.dirty.deep_view(),
            export_hashes: self.export_hashes@,
            config: self.config@,
            metadata: self.metadata@,
            counters: counters_view(self.counters@),
            next_event_id: self.next_event_id,
            next_comment_id: self.next_comment_id,
            path: self.path@,
        }
    }
}

pub(crate) fn bump(id: i64) -> (next: i64)
    ensures
        next == next_number(id),
{
    if id < i64::MAX {
        id + 1
    } else {
        id
    }
}

fn some_text(t: &str) -> (o: Option<String>)
    ensures
        crate::types::opt_text(o) == Some(t@),
{
    Some(t.to_owned())
}

/// Whether a store and a result are what the creation of an issue at the
/// time `now` makes of a store.
///
/// An issue whose fields are not acceptable is refused, and so is one
/// whose id is taken, and one whose external reference another issue
/// carries; the store is then unchanged. Else the issue is added, the
/// creation is recorded, and the issue is marked dirty.
pub open spec fn is_create_outcome(
    before: StoreView,
    after: StoreView,
    r: Result<(), StoreError>,
    i: IssueView,
    actor: Seq<char>,
    now: i64,
) -> bool {
    match r {
        Ok(_) => {
            &&& validation_error(i) is None
            &&& !before.has(i.id)
            &&& !ref_conflict(before.issues, i)
            &&& after == before.created(i, actor, now)
        },
        Err(e) => {
            &&& after == before
            &&& if validation_error(i) is Some {
                e@ == StoreErrorView::Validation(validation_error(i)->0)
            } else if before.has(i.id) {
                e@ == StoreErrorView::AlreadyExists(i.id)
            } else {
                ref_conflict(before.issues, i) && e@ == StoreErrorView::AlreadyExists(
                    i.external_ref->0,
                )
            }
        },
    }
}

impl MemoryStorage {
    /// An empty store.
    pub fn new() -> (s: MemoryStorage)
        ensures
            s@ == crate::store::empty_store(),
    {
        let s = MemoryStorage {
            issues: Vec::new(),
            loose: Vec::new(),
            events: Vec::new(),
            dirty: Vec::new(),
            export_hashes: TextMap::new(),
            config: TextMap::new(),
            metadata: TextMap::new(),
            counters: Vec::new(),
            next_event_id: 1,
            next_comment_id: 1,
            path: String::new(),
        };
        assert(s@.issues =~= Seq::empty());
        assert(s@.loose =~= Seq::empty());
        assert(s@.events =~= Seq::empty());
        assert(s@.dirty =~= Seq::empty());
        assert(s@.counters =~= Seq::empty());
        s
    }

    /// Where the store is kept: nowhere, for a store in memory.
    pub fn path(&self) -> (p: &str)
        ensures
            p@ == self@.path,
    {
        self.path.as_str()
    }

    /// Ends the use of the store. A store in memory has nothing to release.
    pub fn close(&self) -> (r: Result<(), StoreError>)
        ensures
            r is Ok,
    {
        Ok(())
    }

    /// The position of the issue that stands for an id.
    pub fn find(&self, id: &str) -> (r: Option<usize>)
        ensures
            r is Some <==> self@.has(id@),
            r is Some ==> r->0 == self@.position(id@) && is_first_index(
                self@.issues,
                id@,
                r->0 as int,
            ),
    {
        let ghost iv = self.issues.deep_view();
        let wanted: String = id.to_owned();
        let mut i: usize = 0;
        while i < self.issues.len()
            invariant
                i <= self.issues.len(),
                iv == self.issues.deep_view(),
                wanted@ == id@,
                forall|k: int| 0 <= k < i ==> (#[trigger] iv[k]).id != id@,
            decreases self.issues.len() - i,
        {
            assert(iv[i as int] == self.issues[i as int]@);
            if self.issues[i].id == wanted {
                proof {
                    lemma_first_index_unique(iv, id@, i as int, i as int);
                }
                return Some(i);
            }
            i = i + 1;
        }
        None
    }

    /// Adds an event to the audit trail.
    pub fn record_event(
        &mut self,
        issue_id: &str,
        event_type: EventType,
        actor: &str,
        old_value: Option<&str>,
        new_value: Option<&str>,
        comment: Option<&str>,
        now: i64,
    )
        ensures
            final(self)@ == old(self)@.with_event(
                issue_id@,
                event_type,
                actor@,
                match old_value {
                    Some(t) => Some(t@),
                    None => None,
                },
                match new_value {
                    Some(t) => Some(t@),
                    None => None,
                },
                match comment {
                    Some(t) => Some(t@),
                    None => None,
                },
                now,
            ),
    {
        let ghost before = self.events.deep_view();
        let event = Event {
            id: self.next_event_id,
            issue_id: issue_id.to_owned(),
            event_type: event_type,
            actor: actor.to_owned(),
            old_value: match old_value {
                Some(t) => some_text(t),
                None => None,
            },
            new_value: match new_value {
                Some(t) => some_text(t),
                None => None,
            },
            comment: match comment {
                Some(t) => some_text(t),
                None => None,
            },
            created_at: now,
        };
        let ghost ev = event@;
        self.events.push(event);
        self.next_event_id = bump(self.next_event_id);
        assert(self.events.deep_view() =~= before.push(ev));
    }

    /// Whether an issue is marked dirty.
    pub fn is_dirty(&self, issue_id: &str) -> (b: bool)
        ensures
            b == has_mark(self@.dirty, issue_id@),
    {
        let ghost dv = self.dirty.deep_view();
        let id: String = issue_id.to_owned();
        let mut k: usize = 0;
        while k < self.dirty.len()
            invariant
                k <= self.dirty.len(),
                dv == self.dirty.deep_view(),
                id@ == issue_id@,
                forall|i: int| 0 <= i < k ==> (#[trigger] dv[i]).issue_id != issue_id@,
            decreases self.dirty.len() - k,
        {
            assert(dv[k as int] == self.dirty[k as int]@);
            if self.dirty[k].issue_id == id {
                return true;
            }
            k = k + 1;
        }
        false
    }

    /// Marks an issue as changed since the last export, at the time `now`.
    /// Marking it again changes nothing.
    pub fn mark_dirty_at(&mut self, issue_id: &str, now: i64)
        ensures
            final(self)@ == old(self)@.with_dirty(issue_id@, now),
    {
        let ghost before = self.dirty.deep_view();
        if !self.is_dirty(issue_id) {
            self.dirty.push(DirtyMark { issue_id: issue_id.to_owned(), marked_at: now });
            assert(self.dirty.deep_view() =~= before.push(
                DirtyMarkView { issue_id: issue_id@, marked_at: now },
            ));
        }
    }

    /// Marks an issue as changed since the last export, now.
    pub fn mark_dirty(&mut self, issue_id: &str)
        ensures
            exists|now: i64| final(self)@ == #[trigger] old(self)@.with_dirty(issue_id@, now),
    {
        let now = now_micros();
        self.mark_dirty_at(issue_id, now);
    }

    /// Creates an issue at the time `now`.
    ///
    /// An issue whose fields are not acceptable is refused, and so is one
    /// whose id is taken, and one whose external reference another issue
    /// carries; the store is then unchanged. Else the issue is added
    /// without labels and comments, the edges that were added for its id
    /// before become its edges, the creation is recorded, and the issue is
    /// marked dirty.
    pub fn create_issue_at(&mut self, issue: &Issue, actor: &str, now: i64) -> (r: Result<
        (),
        StoreError,
    >)
        ensures
            is_create_outcome(old(self)@, final(self)@, r, issue@, actor@, now),
    {
        match issue.validate() {
            Err(message) => {
                return Err(StoreError::Validation(message));
            },
            Ok(_) => {},
        }
        if self.find(issue.id.as_str()).is_some() {
            return Err(StoreError::AlreadyExists(issue.id.clone()));
        }
        match self.reference_conflict(issue) {
            Some(r) => {
                return Err(StoreError::AlreadyExists(r));
            },
            None => {},
        }
        let ghost before = self.issues.deep_view();
        let ghost base = self@;
        let mut stored = issue.clone();
        stored.labels = Vec::new();
        stored.dependencies = pick_source(&self.loose, &issue.id);
        stored.comments = Vec::new();
        assert(stored@ =~= (IssueView { dependencies: base.loose_from(issue@.id), ..bare(issue@) })) by {
            assert(stored@.labels =~= Seq::empty());
            assert(stored@.comments =~= Seq::empty());
        }
        let hash = stored.compute_content_hash();
        stored.content_hash = Some(hash);
        assert(stored@ == base.adopted(issue@));
        self.issues.push(stored);
        self.loose = remove_source(&self.loose, &issue.id);
        assert(self.issues.deep_view() =~= before.push(base.adopted(issue@)));
        self.record_event(issue.id.as_str(), EventType::Created, actor, None, None, None, now);
        self.mark_dirty_at(issue.id.as_str(), now);
        Ok(())
    }

    /// The external reference of an issue, where another issue of the
    /// store carries it.
    pub fn reference_conflict(&self, issue: &Issue) -> (r: Option<String>)
        ensures
            r is Some <==> ref_conflict(self@.issues, issue@),
            r is Some ==> Some(r->0@) == issue@.external_ref,
    {
        match &issue.external_ref {
            None => None,
            Some(wanted) => {
                let ghost iv = self.issues.deep_view();
                let mut k: usize = 0;
                while k < self.issues.len()
                    invariant
                        k <= self.issues.len(),
                        iv == self.issues.deep_view(),
                        issue@.external_ref == Some(wanted@),
                        forall|p: int|
                            0 <= p < k ==> !((#[trigger] iv[p]).external_ref == Some(wanted@)
                                && iv[p].id != issue@.id),
                    decreases self.issues.len() - k,
                {
                    assert(iv[k as int] == self.issues[k as int]@);
                    let same_ref = match &self.issues[k].external_ref {
                        Some(r) => *r == *wanted,
                        None => false,
                    };
                    if same_ref && self.issues[k].id != issue.id {
                        return Some(wanted.clone());
                    }
                    k = k + 1;
                }
                None
            },
        }
    }

    /// Creates an issue now.
    pub fn create_issue(&mut self, issue: &Issue, actor: &str) -> (r: Result<(), StoreError>)
        ensures
            exists|now: i64| #[trigger]
                is_create_outcome(old(self)@, final(self)@, r, issue@, actor@, now),
    {
        let now = now_micros();
        self.create_issue_at(issue, actor, now)
    }

    /// Creates the issues of a list at the time `now`, one after the
    /// other, and stops at the first that is refused; the issues before it
    /// stay created.
    pub fn create_issues_at(&mut self, issues: &Vec<Issue>, actor: &str, now: i64) -> (r: Result<
        (),
        StoreError,
    >)
        ensures
            final(self)@ == old(self)@.created_all(
                issues.deep_view(),
                actor@,
                now,
                issues.len() as int,
            ).0,
            r is Ok == old(self)@.created_all(
                issues.deep_view(),
                actor@,
                now,
                issues.len() as int,
            ).1,
    {
        let ghost iv = issues.deep_view();
        let ghost base = self@;
        let mut failure: Option<StoreError> = None;
        let mut k: usize = 0;
        while k < issues.len() && failure.is_none()
            invariant
                k <= issues.len(),
                iv == issues.deep_view(),
                base.created_all(iv, actor@, now, k as int) == (self@, failure is None),
                failure is Some ==> k >= 1,
            decreases issues.len() - k,
        {
            assert(iv[k as int] == issues[k as int]@);
            let ghost before = self@;
            let step = self.create_issue_at(&issues[k], actor, now);
            proof {
                let prior = base.created_all(iv, actor@, now, k as int);
                assert(prior == (before, true));
                if step is Ok {
                    assert(validation_error(iv[k as int]) is None && !before.has(iv[k as int].id)
                        && !ref_conflict(before.issues, iv[k as int]));
                    assert(base.created_all(iv, actor@, now, k + 1) == (
                        before.created(iv[k as int], actor@, now),
                        true,
                    ));
                } else {
                    assert(validation_error(iv[k as int]) is Some || before.has(iv[k as int].id)
                        || ref_conflict(before.issues, iv[k as int]));
                    assert(base.created_all(iv, actor@, now, k + 1) == (before, false));
                }
            }
            match step {
                Ok(_) => {},
                Err(e) => {
                    failure = Some(e);
                },
            }
            k = k + 1;
        }
        match failure {
            Some(e) => {
                proof {
                    lemma_created_all_stops(base, iv, actor@, now, k as int, issues.len() as int);
                }
                Err(e)
            },
            None => Ok(()),
        }
    }

    /// Creates the issues of a list now.
    pub fn create_issues(&mut self, issues: &Vec<Issue>, actor: &str) -> (r: Result<(), StoreError>)
        ensures
            exists|now: i64|
                final(self)@ == (#[trigger] old(self)@.created_all(
                    issues.deep_view(),
                    actor@,
                    now,
                    issues.len() as int,
                )).0 && r is Ok == old(self)@.created_all(
                    issues.deep_view(),
                    actor@,
                    now,
                    issues.len() as int,
                ).1,
    {
        let now = now_micros();
        self.create_issues_at(issues, actor, now)
    }

    /// The issue with the given id, if there is one.
    pub fn get_issue(&self, id: &str) -> (r: Option<Issue>)
        ensures
            r is Some <==> self@.has(id@),
            r is Some ==> r->0@ == self@.issue(id@),
    {
        match self.find(id) {
            Some(p) => {
                assert(self.issues.deep_view()[p as int] == self.issues[p as int]@);
                Some(self.issues[p].clone())
            },
            None => None,
        }
    }

    /// Closes an issue at the time `now`: its status becomes closed, the
    /// closing is recorded with its reason, and the issue is marked dirty.
    pub fn close_issue_at(&mut self, id: &str, reason: &str, actor: &str, now: i64) -> (r: Result<
        (),
        StoreError,
    >)
        ensures
            match r {
                Ok(_) => old(self)@.has(id@) && final(self)@ == old(self)@.closed(
                    id@,
                    reason@,
                    actor@,
                    now,
                ),
                Err(e) => !old(self)@.has(id@) && final(self)@ == old(self)@ && e@
                    == StoreErrorView::NotFound(id@),
            },
    {
        match self.find(id) {
            None => Err(StoreError::NotFound(id.to_owned())),
            Some(p) => {
                let ghost before = self.issues.deep_view();
                assert(before[p as int] == self.issues[p as int]@);
                let mut issue = self.issues[p].clone();
                issue.status = Status::Closed;
                issue.closed_at = Some(now);
                issue.updated_at = now;
                let hash = issue.compute_content_hash();
                issue.content_hash = Some(hash);
                assert(issue@ == closed_at(before[p as int], now));
                self.issues[p] = issue;
                assert(self.issues.deep_view() =~= before.update(
                    p as int,
                    closed_at(before[p as int], now),
                ));
                self.record_event(id, EventType::Closed, actor, None, None, Some(reason), now);
                self.mark_dirty_at(id, now);
                Ok(())
            },
        }
    }

    /// Closes an issue now.
    pub fn close_issue(&mut self, id: &str, reason: &str, actor: &str) -> (r: Result<(), StoreError>)
        ensures
            match r {
                Ok(_) => old(self)@.has(id@) && exists|now: i64|
                    final(self)@ == #[trigger] old(self)@.closed(id@, reason@, actor@, now),
                Err(e) => !old(self)@.has(id@) && final(self)@ == old(self)@ && e@
                    == StoreErrorView::NotFound(id@),
            },
    {
        let now = now_micros();
        self.close_issue_at(id, reason, actor, now)
    }
}


/// The status that a text names.
pub fn status_of(t: &str) -> (r: Option<Status>)
    ensures
        r == parse_status(t@),
{
    if str_eq(t, Status::Open.as_str()) {
        Some(Status::Open)
    } else if str_eq(t, Status::InProgress.as_str()) {
        Some(Status::InProgress)
    } else if str_eq(t, Status::Blocked.as_str()) {
        Some(Status::Blocked)
    } else if str_eq(t, Status::Closed.as_str()) {
        Some(Status::Closed)
    } else {
        None
    }
}

/// The issue type that a text names.
pub fn issue_type_of(t: &str) -> (r: Option<IssueType>)
    ensures
        r == parse_issue_type(t@),
{
    if str_eq(t, IssueType::Bug.as_str()) {
        Some(IssueType::Bug)
    } else if str_eq(t, IssueType::Feature.as_str()) {
        Some(IssueType::Feature)
    } else if str_eq(t, IssueType::Task.as_str()) {
        Some(IssueType::Task)
    } else if str_eq(t, IssueType::Epic.as_str()) {
        Some(IssueType::Epic)
    } else if str_eq(t, IssueType::Chore.as_str()) {
        Some(IssueType::Chore)
    } else {
        None
    }
}

/// The priority that a text names: one of the digits 0 to 4.
pub fn priority_of(t: &str) -> (r: Option<i32>)
    ensures
        r == parse_priority(t@),
{
    if str_eq(t, "0") {
        Some(0)
    } else if str_eq(t, "1") {
        Some(1)
    } else if str_eq(t, "2") {
        Some(2)
    } else if str_eq(t, "3") {
        Some(3)
    } else if str_eq(t, "4") {
        Some(4)
    } else {
        None
    }
}

/// Sets one field of an issue to a new value. Returns whether the field is
/// known and the value fits it; the issue is unchanged where not.
pub fn apply_update_to(issue: &mut Issue, key: &str, value: &str, now: i64) -> (ok: bool)
    ensures
        match apply_update(old(issue)@, key@, value@, now) {
            Some(v) => ok && final(issue)@ == v,
            None => !ok && final(issue)@ == old(issue)@,
        },
{
    if str_eq(key, "title") {
        issue.title = value.to_owned();
        true
    } else if str_eq(key, "description") {
        issue.description = value.to_owned();
        true
    } else if str_eq(key, "design") {
        issue.design = value.to_owned();
        true
    } else if str_eq(key, "acceptance_criteria") {
        issue.acceptance_criteria = value.to_owned();
        true
    } else if str_eq(key, "notes") {
        issue.notes = value.to_owned();
        true
    } else if str_eq(key, "assignee") {
        issue.assignee = value.to_owned();
        true
    } else if str_eq(key, "external_ref") {
        if value.is_empty() {
            issue.external_ref = None;
        } else {
            issue.external_ref = Some(value.to_owned());
        }
        true
    } else if str_eq(key, "status") {
        match status_of(value) {
            Some(s) => {
                issue.status = s;
                match s {
                    Status::Closed => {
                        if issue.closed_at.is_none() {
                            issue.closed_at = Some(now);
                        }
                    },
                    _ => {
                        issue.closed_at = None;
                    },
                }
                true
            },
            None => false,
        }
    } else if str_eq(key, "priority") {
        match priority_of(value) {
            Some(p) => {
                issue.priority = p;
                true
            },
            None => false,
        }
    } else if str_eq(key, "issue_type") {
        match issue_type_of(value) {
            Some(t) => {
                issue.issue_type = t;
                true
            },
            None => false,
        }
    } else {
        false
    }
}

/// The edges of a list that leave the issue `source`.
pub fn pick_source(deps: &Vec<Dependency>, source: &String) -> (picked: Vec<Dependency>)
    ensures
        picked.deep_view() == from_source(deps.deep_view(), source@, deps.len() as int),
{
    let ghost dv = deps.deep_view();
    let mut picked: Vec<Dependency> = Vec::new();
    let mut k: usize = 0;
    assert(picked.deep_view() =~= from_source(dv, source@, 0));
    while k < deps.len()
        invariant
            k <= deps.len(),
            dv == deps.deep_view(),
            picked.deep_view() == from_source(dv, source@, k as int),
        decreases deps.len() - k,
    {
        let ghost before = picked.deep_view();
        assert(dv[k as int] == deps[k as int]@);
        if deps[k].issue_id == *source {
            picked.push(deps[k].clone());
            assert(picked.deep_view() =~= before.push(dv[k as int]));
        }
        k = k + 1;
    }
    picked
}

/// The edges of a list that do not leave the issue `source`.
pub fn remove_source(deps: &Vec<Dependency>, source: &String) -> (kept: Vec<Dependency>)
    ensures
        kept.deep_view() == without_source(deps.deep_view(), source@, deps.len() as int),
{
    let ghost dv = deps.deep_view();
    let mut kept: Vec<Dependency> = Vec::new();
    let mut k: usize = 0;
    assert(kept.deep_view() =~= without_source(dv, source@, 0));
    while k < deps.len()
        invariant
            k <= deps.len(),
            dv == deps.deep_view(),
            kept.deep_view() == without_source(dv, source@, k as int),
        decreases deps.len() - k,
    {
        let ghost before = kept.deep_view();
        assert(dv[k as int] == deps[k as int]@);
        if deps[k].issue_id != *source {
            kept.push(deps[k].clone());
            assert(kept.deep_view() =~= before.push(dv[k as int]));
        }
        k = k + 1;
    }
    kept
}

/// The edges of a list that do not lead from `source` to `target`.
pub fn remove_pair(deps: &Vec<Dependency>, source: &str, target: &str) -> (kept: Vec<Dependency>)
    ensures
        kept.deep_view() == without_pair(deps.deep_view(), source@, target@, deps.len() as int),
{
    let ghost dv = deps.deep_view();
    let mut kept: Vec<Dependency> = Vec::new();
    let mut k: usize = 0;
    assert(kept.deep_view() =~= without_pair(dv, source@, target@, 0));
    while k < deps.len()
        invariant
            k <= deps.len(),
            dv == deps.deep_view(),
            kept.deep_view() == without_pair(dv, source@, target@, k as int),
        decreases deps.len() - k,
    {
        let ghost before = kept.deep_view();
        assert(dv[k as int] == deps[k as int]@);
        if !(str_eq(deps[k].issue_id.as_str(), source) && str_eq(
            deps[k].depends_on_id.as_str(),
            target,
        )) {
            kept.push(deps[k].clone());
            assert(kept.deep_view() =~= before.push(dv[k as int]));
        }
        k = k + 1;
    }
    kept
}

/// The edges of a list that do not lead to `target`.
pub fn remove_target(deps: &Vec<Dependency>, target: &String) -> (kept: Vec<Dependency>)
    ensures
        kept.deep_view() == without_target(deps.deep_view(), target@, deps.len() as int),
{
    let ghost dv = deps.deep_view();
    let mut kept: Vec<Dependency> = Vec::new();
    let mut k: usize = 0;
    assert(kept.deep_view() =~= without_target(dv, target@, 0));
    while k < deps.len()
        invariant
            k <= deps.len(),
            dv == deps.deep_view(),
            kept.deep_view() == without_target(dv, target@, k as int),
        decreases deps.len() - k,
    {
        let ghost before = kept.deep_view();
        assert(dv[k as int] == deps[k as int]@);
        if deps[k].depends_on_id != *target {
            kept.push(deps[k].clone());
            assert(kept.deep_view() =~= before.push(dv[k as int]));
        }
        k = k + 1;
    }
    kept
}

/// The marks of a list that are not for the issue `t`.
pub fn remove_mark(list: &Vec<DirtyMark>, t: &String) -> (kept: Vec<DirtyMark>)
    ensures
        kept.deep_view() == without_mark(list.deep_view(), t@, list.len() as int),
{
    let ghost lv = list.deep_view();
    let mut kept: Vec<DirtyMark> = Vec::new();
    let mut k: usize = 0;
    assert(kept.deep_view() =~= without_mark(lv, t@, 0));
    while k < list.len()
        invariant
            k <= list.len(),
            lv == list.deep_view(),
            kept.deep_view() == without_mark(lv, t@, k as int),
        decreases list.len() - k,
    {
        let ghost before = kept.deep_view();
        assert(lv[k as int] == list[k as int]@);
        if list[k].issue_id != *t {
            kept.push(list[k].clone());
            assert(kept.deep_view() =~= before.push(lv[k as int]));
        }
        k = k + 1;
    }
    kept
}

/// The texts of a list that are not `t`.
pub fn remove_text(list: &Vec<String>, t: &String) -> (kept: Vec<String>)
    ensures
        kept.deep_view() == without_text(list.deep_view(), t@, list.len() as int),
{
    let ghost lv = list.deep_view();
    let mut kept: Vec<String> = Vec::new();
    let mut k: usize = 0;
    assert(kept.deep_view() =~= without_text(lv, t@, 0));
    while k < list.len()
        invariant
            k <= list.len(),
            lv == list.deep_view(),
            kept.deep_view() == without_text(lv, t@, k as int),
        decreases list.len() - k,
    {
        let ghost before = kept.deep_view();
        assert(lv[k as int] == list[k as int]@);
        if list[k] != *t {
            kept.push(list[k].clone());
            assert(kept.deep_view() =~= before.push(lv[k as int]));
        }
        k = k + 1;
    }
    kept
}

/// Whether a store and a result are what an update at the time `now`
/// makes of a store.
///
/// Where the store has no such issue, nothing changes and the issue is
/// reported as not found. Where an update cannot be applied, nothing
/// changes and the first such update is reported with its field. Where the
/// issue that comes of the updates is not acceptable, nothing changes and
/// what is wrong with it is reported. Where another issue carries its
/// external reference, nothing changes and the reference is reported. Else
/// the issue is replaced, each update is recorded, and the issue is marked
/// dirty.
pub open spec fn is_update_outcome(
    before: StoreView,
    after: StoreView,
    r: Result<(), StoreError>,
    id: Seq<char>,
    updates: Seq<(Seq<char>, Seq<char>)>,
    actor: Seq<char>,
    now: i64,
) -> bool {
    let applied = apply_updates(before.issue(id), updates, now, updates.len() as int);
    match r {
        Ok(_) => {
            &&& before.has(id)
            &&& applied is Some
            &&& validation_error(applied->0) is None
            &&& !ref_conflict(before.issues, applied->0)
            &&& after == before.updated(id, applied->0, updates, actor, now)
        },
        Err(e) => {
            &&& after == before
            &&& if !before.has(id) {
                e@ == StoreErrorView::NotFound(id)
            } else if applied is None {
                exists|k: int|
                    0 <= k < updates.len() && apply_updates(before.issue(id), updates, now, k)
                        is Some && apply_updates(before.issue(id), updates, now, k + 1) is None
                        && e@ == StoreErrorView::Validation(
                        update_refused((#[trigger] updates[k]).0),
                    )
            } else if validation_error(applied->0) is Some {
                e@ == StoreErrorView::Validation(validation_error(applied->0)->0)
            } else {
                ref_conflict(before.issues, applied->0) && e@ == StoreErrorView::AlreadyExists(
                    applied->0.external_ref->0,
                )
            }
        },
    }
}

/// Applies a list of updates, in their order, to a copy of an issue.
/// Returns the copy, or the position of the first update that is refused.
pub fn apply_all(issue: &Issue, updates: &Vec<(String, String)>, now: i64) -> (r: Result<
    Issue,
    usize,
>)
    ensures
        match r {
            Ok(updated) => apply_updates(
                issue@,
                updates_view(updates@),
                now,
                updates.len() as int,
            ) == Some(updated@),
            Err(k) => k < updates.len() && apply_updates(issue@, updates_view(updates@), now, k as int)
                is Some && apply_updates(issue@, updates_view(updates@), now, k + 1) is None
                && apply_updates(issue@, updates_view(updates@), now, updates.len() as int) is None,
        },
{
    let ghost uv = updates_view(updates@);
    let mut candidate = issue.clone();
    let mut k: usize = 0;
    while k < updates.len()
        invariant
            k <= updates.len(),
            uv == updates_view(updates@),
            apply_updates(issue@, uv, now, k as int) == Some(candidate@),
        decreases updates.len() - k,
    {
        assert(uv[k as int] == (updates[k as int].0@, updates[k as int].1@));
        let ok = apply_update_to(&mut candidate, updates[k].0.as_str(), updates[k].1.as_str(), now);
        if !ok {
            proof {
                lemma_updates_stay_refused(issue@, uv, now, k + 1, updates.len() as int);
            }
            return Err(k);
        }
        k = k + 1;
    }
    Ok(candidate)
}

impl MemoryStorage {
    /// Records an event for each update of a list.
    fn record_updates(&mut self, id: &str, updates: &Vec<(String, String)>, actor: &str, now: i64)
        ensures
            final(self)@ == old(self)@.with_update_events(
                id@,
                updates_view(updates@),
                actor@,
                now,
                updates.len() as int,
            ),
    {
        let ghost uv = updates_view(updates@);
        let ghost base = self@;
        let ghost mut cur = self@;
        let mut k: usize = 0;
        while k < updates.len()
            invariant
                k <= updates.len(),
                uv == updates_view(updates@),
                self@ == cur,
                cur == base.with_update_events(id@, uv, actor@, now, k as int),
            decreases updates.len() - k,
        {
            assert(uv[k as int] == (updates[k as int].0@, updates[k as int].1@));
            proof {
                cur = cur.with_event(
                    id@,
                    EventType::Updated,
                    actor@,
                    None,
                    Some(uv[k as int].1),
                    None,
                    now,
                );
            }
            self.record_event(
                id,
                EventType::Updated,
                actor,
                None,
                Some(updates[k].1.as_str()),
                None,
                now,
            );
            k = k + 1;
        }
    }

    /// Updates fields of an issue at the time `now`.
    ///
    /// The updates are applied in their order to a copy of the issue. An
    /// update of a field that is not known, or with a value that does not
    /// fit, is refused, and so is a result that is not acceptable or that
    /// carries the external reference of another issue; the store is then
    /// unchanged. Else the issue is replaced, each update is recorded, and
    /// the issue is marked dirty.
    pub fn update_issue_at(
        &mut self,
        id: &str,
        updates: &Vec<(String, String)>,
        actor: &str,
        now: i64,
    ) -> (r: Result<(), StoreError>)
        ensures
            is_update_outcome(old(self)@, final(self)@, r, id@, updates_view(updates@), actor@, now),
    {
        let p = match self.find(id) {
            None => {
                return Err(StoreError::NotFound(id.to_owned()));
            },
            Some(p) => p,
        };
        let ghost before = self.issues.deep_view();
        let ghost uv = updates_view(updates@);
        let ghost current = before[p as int];
        assert(current == self.issues[p as int]@);
        let mut candidate = match apply_all(&self.issues[p], updates, now) {
            Ok(candidate) => candidate,
            Err(k) => {
                assert(uv[k as int] == (updates[k as int].0@, updates[k as int].1@));
                let mut message: String = "cannot update field: ".to_owned();
                message.append(updates[k].0.as_str());
                return Err(StoreError::Validation(message));
            },
        };
        match candidate.validate() {
            Err(message) => {
                return Err(StoreError::Validation(message));
            },
            Ok(_) => {},
        }
        proof {
            crate::consistency::lemma_updates_keep_id(current, uv, now, updates.len() as int);
        }
        match self.reference_conflict(&candidate) {
            Some(r) => {
                return Err(StoreError::AlreadyExists(r));
            },
            None => {},
        }
        let ghost applied = candidate@;
        candidate.updated_at = now;
        let hash = candidate.compute_content_hash();
        candidate.content_hash = Some(hash);
        assert(candidate@ == hashed(IssueView { updated_at: now, ..applied }));
        self.issues[p] = candidate;
        assert(self.issues.deep_view() =~= before.update(
            p as int,
            hashed(IssueView { updated_at: now, ..applied }),
        ));
        self.record_updates(id, updates, actor, now);
        self.mark_dirty_at(id, now);
        Ok(())
    }

    /// Updates fields of an issue now.
    pub fn update_issue(&mut self, id: &str, updates: &Vec<(String, String)>, actor: &str) -> (r:
        Result<(), StoreError>)
        ensures
            exists|now: i64| #[trigger]
                is_update_outcome(
                    old(self)@,
                    final(self)@,
                    r,
                    id@,
                    updates_view(updates@),
                    actor@,
                    now,
                ),
    {
        let now = now_micros();
        self.update_issue_at(id, updates, actor, now)
    }

    /// Deletes an issue with its labels, comments and edges, the edges
    /// that lead to it, its dirty mark and its export hash.
    pub fn delete_issue(&mut self, id: &str) -> (r: Result<(), StoreError>)
        ensures
            match r {
                Ok(_) => old(self)@.has(id@) && final(self)@ == old(self)@.deleted(id@),
                Err(e) => !old(self)@.has(id@) && final(self)@ == old(self)@ && e@
                    == StoreErrorView::NotFound(id@),
            },
    {
        let p = match self.find(id) {
            None => {
                return Err(StoreError::NotFound(id.to_owned()));
            },
            Some(p) => p,
        };
        let target: String = id.to_owned();
        let ghost before = self.issues.deep_view();
        self.issues.remove(p);
        let ghost rest = self.issues.deep_view();
        assert(rest =~= before.remove(p as int));
        let mut k: usize = 0;
        while k < self.issues.len()
            invariant
                k <= self.issues.len(),
                target@ == id@,
                self.issues.len() == rest.len(),
                forall|j: int|
                    0 <= j < k ==> #[trigger] self.issues.deep_view()[j] == (IssueView {
                        dependencies: without_target(
                            rest[j].dependencies,
                            id@,
                            rest[j].dependencies.len() as int,
                        ),
                        ..rest[j]
                    }),
                forall|j: int| k <= j < rest.len() ==> #[trigger] self.issues.deep_view()[j] == rest[j],
                self.loose == old(self).loose,
                self.events == old(self).events,
                self.dirty == old(self).dirty,
                self.export_hashes == old(self).export_hashes,
                self.config == old(self).config,
                self.metadata == old(self).metadata,
                self.counters == old(self).counters,
                self.next_event_id == old(self).next_event_id,
                self.next_comment_id == old(self).next_comment_id,
                self.path == old(self).path,
            decreases self.issues.len() - k,
        {
            let ghost now_view = self.issues.deep_view();
            assert(now_view[k as int] == self.issues[k as int]@);
            let kept = remove_target(&self.issues[k].dependencies, &target);
            self.issues[k].dependencies = kept;
            proof {
                let after = self.issues.deep_view();
                assert(after[k as int] == self.issues[k as int]@);
                assert forall|j: int| 0 <= j < k + 1 implies #[trigger] after[j] == (IssueView {
                    dependencies: without_target(
                        rest[j].dependencies,
                        id@,
                        rest[j].dependencies.len() as int,
                    ),
                    ..rest[j]
                }) by {
                    if j < k {
                        assert(after[j] == self.issues[j]@);
                        assert(after[j] == now_view[j]);
                    }
                }
                assert forall|j: int| k + 1 <= j < rest.len() implies #[trigger] after[j]
                    == rest[j] by {
                    assert(after[j] == now_view[j]);
                }
            }
            k = k + 1;
        }
        proof {
            let after = self.issues.deep_view();
            let wanted = unlinked(rest, id@, rest.len() as int);
            lemma_unlinked_len(rest, id@, rest.len() as int);
            assert forall|j: int| 0 <= j < rest.len() implies after[j] == wanted[j] by {
                lemma_unlinked_index(rest, id@, rest.len() as int, j);
            }
            assert(after =~= wanted);
        }
        let kept = remove_mark(&self.dirty, &target);
        self.dirty = kept;
        self.loose = remove_target(&self.loose, &target);
        self.export_hashes.remove(id);
        Ok(())
    }

    /// The issue with the given reference to another system, if there is
    /// one; the first where there are several.
    pub fn get_issue_by_external_ref(&self, external_ref: &str) -> (r: Option<Issue>)
        ensures
            match r {
                Some(i) => exists|p: int|
                    0 <= p < self@.issues.len() && i@ == #[trigger] self@.issues[p]
                        && self@.issues[p].external_ref == Some(external_ref@) && forall|j: int|
                        0 <= j < p ==> (#[trigger] self@.issues[j]).external_ref != Some(
                            external_ref@,
                        ),
                None => forall|j: int|
                    0 <= j < self@.issues.len() ==> (#[trigger] self@.issues[j]).external_ref
                        != Some(external_ref@),
            },
    {
        let ghost iv = self.issues.deep_view();
        let wanted: String = external_ref.to_owned();
        let mut i: usize = 0;
        while i < self.issues.len()
            invariant
                i <= self.issues.len(),
                iv == self.issues.deep_view(),
                wanted@ == external_ref@,
                forall|j: int| 0 <= j < i ==> (#[trigger] iv[j]).external_ref != Some(external_ref@),
            decreases self.issues.len() - i,
        {
            assert(iv[i as int] == self.issues[i as int]@);
            let found = match &self.issues[i].external_ref {
                Some(r) => *r == wanted,
                None => false,
            };
            if found {
                return Some(self.issues[i].clone());
            }
            i = i + 1;
        }
        None
    }
}

/// Once an update is refused, the list of updates stays refused.
proof fn lemma_updates_stay_refused(
    i: IssueView,
    updates: Seq<(Seq<char>, Seq<char>)>,
    now: i64,
    k: int,
    n: int,
)
    requires
        0 <= k <= n,
        apply_updates(i, updates, now, k) is None,
    ensures
        apply_updates(i, updates, now, n) is None,
    decreases n - k,
{
    if k < n {
        lemma_updates_stay_refused(i, updates, now, k + 1, n);
    }
}

/// Once an issue of a list is refused, no more are created.
proof fn lemma_created_all_stops(
    s: StoreView,
    issues: Seq<IssueView>,
    actor: Seq<char>,
    now: i64,
    k: int,
    n: int,
)
    requires
        1 <= k <= n,
        !s.created_all(issues, actor, now, k).1,
    ensures
        s.created_all(issues, actor, now, n) == s.created_all(issues, actor, now, k),
    decreases n - k,
{
    if k < n {
        lemma_created_all_stops(s, issues, actor, now, k, n - 1);
    }
}

} // verus!
