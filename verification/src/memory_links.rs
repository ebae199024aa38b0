//! The edges, labels, comments and events of a store in memory.

use vstd::prelude::*;
use vstd::string::*;
use crate::index::{first_index, has_issue, lemma_first_index_exists};
use crate::memory::{
    bump, pick_source, remove_pair, remove_target, remove_text, MemoryStorage,
};
use crate::storage::{now_micros, StoreError, StoreErrorView};
use crate::store::{
    edges_upto, from_source, has_pair, has_target, without_target, without_text, StoreView,
};
use crate::text::{contains_text, str_eq};
use crate::types::{
    clone_comments, clone_dependencies, clone_texts, Comment, Dependency, DependencyView, Event,
    EventType, Issue, IssueView,
};

verus! {


/// Whether a list of edges holds one from `source` to `target`.
pub fn holds_pair(deps: &Vec<Dependency>, source: &str, target: &str) -> (found: bool)
    ensures
        found == has_pair(deps.deep_view(), source@, target@),
{
    let ghost dv = deps.deep_view();
    let mut k: usize = 0;
    while k < deps.len()
        invariant
            k <= deps.len(),
            dv == deps.deep_view(),
            forall|j: int|
                0 <= j < k ==> !((#[trigger] dv[j]).issue_id == source@ && dv[j].depends_on_id
                    == target@),
        decreases deps.len() - k,
    {
        assert(dv[k as int] == deps[k as int]@);
        if str_eq(deps[k].issue_id.as_str(), source) && str_eq(deps[k].depends_on_id.as_str(), target) {
            return true;
        }
        k = k + 1;
    }
    false
}

/// Whether a list of edges holds one that leads to `target`.
pub fn leads_to(deps: &Vec<Dependency>, target: &String) -> (found: bool)
    ensures
        found == has_target(deps.deep_view(), target@),
{
    let ghost dv = deps.deep_view();
    let mut k: usize = 0;
    while k < deps.len()
        invariant
            k <= deps.len(),
            dv == deps.deep_view(),
            forall|j: int| 0 <= j < k ==> (#[trigger] dv[j]).depends_on_id != target@,
        decreases deps.len() - k,
    {
        assert(dv[k as int] == deps[k as int]@);
        if deps[k].depends_on_id == *target {
            return true;
        }
        k = k + 1;
    }
    false
}

/// Whether a store and a result are what the adding of a comment at the
/// time `now` makes of a store.
///
/// Where the store has no such issue, nothing changes and the issue is
/// reported as not found. Where no id is left for the comment, nothing
/// changes and the store reports that it failed. Else the comment is
/// added with an id that no comment of the store had, the counter is moved
/// past it, the comment is recorded as an event, and the issue is marked
/// dirty.
pub open spec fn is_comment_outcome(
    before: StoreView,
    after: StoreView,
    r: Result<Comment, StoreError>,
    id: Seq<char>,
    author: Seq<char>,
    text: Seq<char>,
    now: i64,
) -> bool {
    match r {
        Ok(c) => {
            &&& before.has(id)
            &&& before.fresh_comment_id() <= i64::MAX
            &&& c@ == before.next_comment(id, author, text, now)
            &&& after == before.commented(id, author, text, now)
            &&& forall|p: int, k: int|
                0 <= p < before.issues.len() && 0 <= k < before.issues[p].comments.len() ==> (
                #[trigger] before.issues[p].comments[k]).id != c@.id
        },
        Err(e) => {
            &&& after == before
            &&& if !before.has(id) {
                e@ == StoreErrorView::NotFound(id)
            } else {
                before.fresh_comment_id() > i64::MAX && e@ is Store
            }
        },
    }
}

impl MemoryStorage {
    /// Adds an edge at the time `now`.
    ///
    /// Neither the issue that the edge leaves nor the one it leads to need
    /// be in the store. Where the store holds the issue that the edge
    /// leaves, the edge is added to its edges; else it is kept among the
    /// loose edges until that issue is created. An edge between the same
    /// two issues as one that is there already is refused. The addition is
    /// recorded and the id that the edge leaves is marked dirty.
    pub fn add_dependency_at(&mut self, dep: &Dependency, actor: &str, now: i64) -> (r: Result<
        (),
        StoreError,
    >)
        ensures
            match r {
                Ok(_) => !old(self)@.has_edge(dep@.issue_id, dep@.depends_on_id) && final(self)@
                    == old(self)@.with_edge(dep@, actor@, now),
                Err(e) => final(self)@ == old(self)@ && old(self)@.has_edge(
                    dep@.issue_id,
                    dep@.depends_on_id,
                ) && e@ == StoreErrorView::AlreadyExists(dep@.depends_on_id),
            },
    {
        match self.find(dep.issue_id.as_str()) {
            None => {
                if holds_pair(&self.loose, dep.issue_id.as_str(), dep.depends_on_id.as_str()) {
                    return Err(StoreError::AlreadyExists(dep.depends_on_id.clone()));
                }
                let ghost before = self.loose.deep_view();
                self.loose.push(dep.clone());
                assert(self.loose.deep_view() =~= before.push(dep@));
            },
            Some(p) => {
                let ghost before = self.issues.deep_view();
                assert(before[p as int] == self.issues[p as int]@);
                if leads_to(&self.issues[p].dependencies, &dep.depends_on_id) {
                    return Err(StoreError::AlreadyExists(dep.depends_on_id.clone()));
                }
                let ghost old_deps = self.issues[p as int].dependencies.deep_view();
                self.issues[p].dependencies.push(dep.clone());
                proof {
                    let after = self.issues.deep_view();
                    assert(after[p as int] == self.issues[p as int]@);
                    assert(self.issues[p as int].dependencies.deep_view() =~= old_deps.push(dep@));
                    assert(after =~= before.update(
                        p as int,
                        IssueView { dependencies: old_deps.push(dep@), ..before[p as int] },
                    ));
                }
            },
        }
        self.record_event(
            dep.issue_id.as_str(),
            EventType::DependencyAdded,
            actor,
            None,
            Some(dep.depends_on_id.as_str()),
            None,
            now,
        );
        self.mark_dirty_at(dep.issue_id.as_str(), now);
        Ok(())
    }

    /// Adds an edge now.
    pub fn add_dependency(&mut self, dep: &Dependency, actor: &str) -> (r: Result<(), StoreError>)
        ensures
            match r {
                Ok(_) => !old(self)@.has_edge(dep@.issue_id, dep@.depends_on_id) && exists|now: i64|
                    final(self)@ == #[trigger] old(self)@.with_edge(dep@, actor@, now),
                Err(e) => final(self)@ == old(self)@ && old(self)@.has_edge(
                    dep@.issue_id,
                    dep@.depends_on_id,
                ) && e@ == StoreErrorView::AlreadyExists(dep@.depends_on_id),
            },
    {
        let now = now_micros();
        self.add_dependency_at(dep, actor, now)
    }

    /// Removes the edge from one issue to another at the time `now`, be it
    /// an edge of an issue of the store or a loose one. The removal is
    /// recorded and the id that the edge left is marked dirty.
    pub fn remove_dependency_at(
        &mut self,
        issue_id: &str,
        depends_on_id: &str,
        actor: &str,
        now: i64,
    ) -> (r: Result<(), StoreError>)
        ensures
            match r {
                Ok(_) => old(self)@.has_edge(issue_id@, depends_on_id@) && final(self)@ == old(
                    self,
                )@.without_edge(issue_id@, depends_on_id@, actor@, now),
                Err(e) => final(self)@ == old(self)@ && !old(self)@.has_edge(
                    issue_id@,
                    depends_on_id@,
                ) && e@ == StoreErrorView::NotFound(
                    if old(self)@.has(issue_id@) {
                        depends_on_id@
                    } else {
                        issue_id@
                    },
                ),
            },
    {
        match self.find(issue_id) {
            None => {
                if !holds_pair(&self.loose, issue_id, depends_on_id) {
                    return Err(StoreError::NotFound(issue_id.to_owned()));
                }
                self.loose = remove_pair(&self.loose, issue_id, depends_on_id);
            },
            Some(p) => {
                let target: String = depends_on_id.to_owned();
                let ghost before = self.issues.deep_view();
                assert(before[p as int] == self.issues[p as int]@);
                if !leads_to(&self.issues[p].dependencies, &target) {
                    return Err(StoreError::NotFound(target));
                }
                let kept = remove_target(&self.issues[p].dependencies, &target);
                self.issues[p].dependencies = kept;
                proof {
                    let after = self.issues.deep_view();
                    assert(after[p as int] == self.issues[p as int]@);
                    assert(after =~= before.update(
                        p as int,
                        IssueView {
                            dependencies: without_target(
                                before[p as int].dependencies,
                                depends_on_id@,
                                before[p as int].dependencies.len() as int,
                            ),
                            ..before[p as int]
                        },
                    ));
                }
            },
        }
        self.record_event(
            issue_id,
            EventType::DependencyRemoved,
            actor,
            Some(depends_on_id),
            None,
            None,
            now,
        );
        self.mark_dirty_at(issue_id, now);
        Ok(())
    }

    /// Removes the edge from one issue to another now.
    pub fn remove_dependency(&mut self, issue_id: &str, depends_on_id: &str, actor: &str) -> (r:
        Result<(), StoreError>)
        ensures
            match r {
                Ok(_) => old(self)@.has_edge(issue_id@, depends_on_id@) && exists|now: i64|
                    final(self)@ == #[trigger] old(self)@.without_edge(
                        issue_id@,
                        depends_on_id@,
                        actor@,
                        now,
                    ),
                Err(e) => final(self)@ == old(self)@ && !old(self)@.has_edge(
                    issue_id@,
                    depends_on_id@,
                ) && e@ == StoreErrorView::NotFound(
                    if old(self)@.has(issue_id@) {
                        depends_on_id@
                    } else {
                        issue_id@
                    },
                ),
            },
    {
        let now = now_micros();
        self.remove_dependency_at(issue_id, depends_on_id, actor, now)
    }

    /// The edges that leave an issue: its own where the store holds it,
    /// else the loose edges that were added for its id.
    pub fn get_dependency_records(&self, issue_id: &str) -> (r: Vec<Dependency>)
        ensures
            r.deep_view() == self@.edges_from(issue_id@),
    {
        match self.find(issue_id) {
            Some(p) => {
                assert(self.issues.deep_view()[p as int] == self.issues[p as int]@);
                clone_dependencies(&self.issues[p].dependencies)
            },
            None => {
                let source: String = issue_id.to_owned();
                pick_source(&self.loose, &source)
            },
        }
    }

    /// The loose edges of the store: those that were added for an issue
    /// that the store does not hold, in the order in which they were added.
    pub fn loose_dependencies(&self) -> (r: Vec<Dependency>)
        ensures
            r.deep_view() == self@.loose,
    {
        clone_dependencies(&self.loose)
    }

    /// All edges of the store: those of its issues, issue after issue,
    /// then the loose ones.
    pub fn all_dependencies(&self) -> (r: Vec<Dependency>)
        ensures
            r.deep_view() == self@.edges(),
    {
        let ghost iv = self.issues.deep_view();
        let mut r: Vec<Dependency> = Vec::new();
        let mut k: usize = 0;
        assert(r.deep_view() =~= edges_upto(iv, 0));
        while k < self.issues.len()
            invariant
                k <= self.issues.len(),
                iv == self.issues.deep_view(),
                r.deep_view() == edges_upto(iv, k as int),
            decreases self.issues.len() - k,
        {
            assert(iv[k as int] == self.issues[k as int]@);
            let deps = &self.issues[k].dependencies;
            let ghost start = r.deep_view();
            let mut j: usize = 0;
            while j < deps.len()
                invariant
                    j <= deps.len(),
                    r.deep_view() == start + deps.deep_view().take(j as int),
                decreases deps.len() - j,
            {
                let ghost before = r.deep_view();
                assert(deps.deep_view()[j as int] == deps[j as int]@);
                r.push(deps[j].clone());
                assert(r.deep_view() =~= before.push(deps[j as int]@));
                assert(deps.deep_view().take(j + 1) =~= deps.deep_view().take(j as int).push(
                    deps[j as int]@,
                ));
                j = j + 1;
            }
            assert(deps.deep_view().take(j as int) =~= deps.deep_view());
            k = k + 1;
        }
        let ghost held = r.deep_view();
        let mut j: usize = 0;
        while j < self.loose.len()
            invariant
                j <= self.loose.len(),
                r.deep_view() == held + self.loose.deep_view().take(j as int),
            decreases self.loose.len() - j,
        {
            let ghost before = r.deep_view();
            assert(self.loose.deep_view()[j as int] == self.loose[j as int]@);
            r.push(self.loose[j].clone());
            assert(r.deep_view() =~= before.push(self.loose[j as int]@));
            assert(self.loose.deep_view().take(j + 1) =~= self.loose.deep_view().take(j as int).push(
                self.loose[j as int]@,
            ));
            j = j + 1;
        }
        assert(self.loose.deep_view().take(j as int) =~= self.loose.deep_view());
        r
    }

    /// The issues that an issue depends on, in the order of its edges.
    pub fn get_dependencies(&self, issue_id: &str) -> (r: Vec<Issue>)
        ensures
            r.deep_view() == if self@.has(issue_id@) {
                crate::store::targets_upto(
                    self@.issues,
                    self@.issue(issue_id@).dependencies,
                    self@.issue(issue_id@).dependencies.len() as int,
                )
            } else {
                Seq::empty()
            },
    {
        let ghost iv = self.issues.deep_view();
        let mut r: Vec<Issue> = Vec::new();
        match self.find(issue_id) {
            Some(p) => {
                assert(iv[p as int] == self.issues[p as int]@);
                let deps = &self.issues[p].dependencies;
                let ghost dv = deps.deep_view();
                let mut k: usize = 0;
                assert(r.deep_view() =~= crate::store::targets_upto(iv, dv, 0));
                while k < deps.len()
                    invariant
                        k <= deps.len(),
                        iv == self.issues.deep_view(),
                        iv == self@.issues,
                        dv == deps.deep_view(),
                        r.deep_view() == crate::store::targets_upto(iv, dv, k as int),
                    decreases deps.len() - k,
                {
                    let ghost before = r.deep_view();
                    assert(dv[k as int] == deps[k as int]@);
                    match self.find(deps[k].depends_on_id.as_str()) {
                        Some(q) => {
                            assert(iv[q as int] == self.issues[q as int]@);
                            r.push(self.issues[q].clone());
                            assert(r.deep_view() =~= before.push(iv[q as int]));
                        },
                        None => {},
                    }
                    k = k + 1;
                }
            },
            None => {
                assert(r.deep_view() =~= Seq::<IssueView>::empty());
            },
        }
        r
    }

    /// The issues that depend on an issue, in the order of the store.
    pub fn get_dependents(&self, issue_id: &str) -> (r: Vec<Issue>)
        ensures
            r.deep_view() == crate::store::dependents_upto(
                self@.issues,
                issue_id@,
                self@.issues.len() as int,
            ),
    {
        let ghost iv = self.issues.deep_view();
        let target: String = issue_id.to_owned();
        let mut r: Vec<Issue> = Vec::new();
        let mut k: usize = 0;
        assert(r.deep_view() =~= crate::store::dependents_upto(iv, issue_id@, 0));
        while k < self.issues.len()
            invariant
                k <= self.issues.len(),
                iv == self.issues.deep_view(),
                target@ == issue_id@,
                r.deep_view() == crate::store::dependents_upto(iv, issue_id@, k as int),
            decreases self.issues.len() - k,
        {
            let ghost before = r.deep_view();
            assert(iv[k as int] == self.issues[k as int]@);
            if leads_to(&self.issues[k].dependencies, &target) {
                r.push(self.issues[k].clone());
                assert(r.deep_view() =~= before.push(iv[k as int]));
            }
            k = k + 1;
        }
        r
    }

    /// Puts a label on an issue at the time `now`. The event is recorded
    /// and the issue is marked dirty, also where it carries the label
    /// already.
    pub fn add_label_at(&mut self, issue_id: &str, label: &str, actor: &str, now: i64) -> (r: Result<
        (),
        StoreError,
    >)
        ensures
            match r {
                Ok(_) => old(self)@.has(issue_id@) && final(self)@ == old(self)@.labelled(
                    issue_id@,
                    label@,
                    actor@,
                    now,
                ),
                Err(e) => !old(self)@.has(issue_id@) && final(self)@ == old(self)@ && e@
                    == StoreErrorView::NotFound(issue_id@),
            },
    {
        let p = match self.find(issue_id) {
            None => {
                return Err(StoreError::NotFound(issue_id.to_owned()));
            },
            Some(p) => p,
        };
        let text: String = label.to_owned();
        let ghost before = self.issues.deep_view();
        assert(before[p as int] == self.issues[p as int]@);
        if !contains_text(&self.issues[p].labels, &text) {
            let ghost old_labels = self.issues[p as int].labels.deep_view();
            self.issues[p].labels.push(text);
            proof {
                let after = self.issues.deep_view();
                assert(after[p as int] == self.issues[p as int]@);
                assert(self.issues[p as int].labels.deep_view() =~= old_labels.push(label@));
                assert(after =~= before.update(
                    p as int,
                    IssueView { labels: old_labels.push(label@), ..before[p as int] },
                ));
            }
        } else {
            assert(self.issues.deep_view() =~= before.update(p as int, before[p as int]));
        }
        self.record_event(issue_id, EventType::LabelAdded, actor, None, Some(label), None, now);
        self.mark_dirty_at(issue_id, now);
        Ok(())
    }

    /// Puts a label on an issue now.
    pub fn add_label(&mut self, issue_id: &str, label: &str, actor: &str) -> (r: Result<
        (),
        StoreError,
    >)
        ensures
            match r {
                Ok(_) => old(self)@.has(issue_id@) && exists|now: i64|
                    final(self)@ == #[trigger] old(self)@.labelled(issue_id@, label@, actor@, now),
                Err(e) => !old(self)@.has(issue_id@) && final(self)@ == old(self)@ && e@
                    == StoreErrorView::NotFound(issue_id@),
            },
    {
        let now = now_micros();
        self.add_label_at(issue_id, label, actor, now)
    }

    /// Takes a label off an issue at the time `now`. The event is recorded
    /// and the issue is marked dirty, also where it did not carry the
    /// label.
    pub fn remove_label_at(&mut self, issue_id: &str, label: &str, actor: &str, now: i64) -> (r:
        Result<(), StoreError>)
        ensures
            match r {
                Ok(_) => old(self)@.has(issue_id@) && final(self)@ == old(self)@.unlabelled(
                    issue_id@,
                    label@,
                    actor@,
                    now,
                ),
                Err(e) => !old(self)@.has(issue_id@) && final(self)@ == old(self)@ && e@
                    == StoreErrorView::NotFound(issue_id@),
            },
    {
        let p = match self.find(issue_id) {
            None => {
                return Err(StoreError::NotFound(issue_id.to_owned()));
            },
            Some(p) => p,
        };
        let text: String = label.to_owned();
        let ghost before = self.issues.deep_view();
        assert(before[p as int] == self.issues[p as int]@);
        let kept = remove_text(&self.issues[p].labels, &text);
        self.issues[p].labels = kept;
        proof {
            let after = self.issues.deep_view();
            assert(after[p as int] == self.issues[p as int]@);
            assert(after =~= before.update(
                p as int,
                IssueView {
                    labels: without_text(
                        before[p as int].labels,
                        label@,
                        before[p as int].labels.len() as int,
                    ),
                    ..before[p as int]
                },
            ));
        }
        self.record_event(issue_id, EventType::LabelRemoved, actor, Some(label), None, None, now);
        self.mark_dirty_at(issue_id, now);
        Ok(())
    }

    /// Takes a label off an issue now.
    pub fn remove_label(&mut self, issue_id: &str, label: &str, actor: &str) -> (r: Result<
        (),
        StoreError,
    >)
        ensures
            match r {
                Ok(_) => old(self)@.has(issue_id@) && exists|now: i64|
                    final(self)@ == #[trigger] old(self)@.unlabelled(issue_id@, label@, actor@, now),
                Err(e) => !old(self)@.has(issue_id@) && final(self)@ == old(self)@ && e@
                    == StoreErrorView::NotFound(issue_id@),
            },
    {
        let now = now_micros();
        self.remove_label_at(issue_id, label, actor, now)
    }

    /// The labels of an issue; none where the store has no such issue.
    pub fn get_labels(&self, issue_id: &str) -> (r: Vec<String>)
        ensures
            r.deep_view() == if self@.has(issue_id@) {
                self@.issue(issue_id@).labels
            } else {
                Seq::empty()
            },
    {
        match self.find(issue_id) {
            Some(p) => {
                assert(self.issues.deep_view()[p as int] == self.issues[p as int]@);
                clone_texts(&self.issues[p].labels)
            },
            None => {
                let r: Vec<String> = Vec::new();
                assert(r.deep_view() =~= Seq::<Seq<char>>::empty());
                r
            },
        }
    }

    /// The issues that carry a label, in the order of the store.
    pub fn get_issues_by_label(&self, label: &str) -> (r: Vec<Issue>)
        ensures
            r.deep_view() == crate::store::labelled_upto(
                self@.issues,
                label@,
                self@.issues.len() as int,
            ),
    {
        let ghost iv = self.issues.deep_view();
        let text: String = label.to_owned();
        let mut r: Vec<Issue> = Vec::new();
        let mut k: usize = 0;
        assert(r.deep_view() =~= crate::store::labelled_upto(iv, label@, 0));
        while k < self.issues.len()
            invariant
                k <= self.issues.len(),
                iv == self.issues.deep_view(),
                text@ == label@,
                r.deep_view() == crate::store::labelled_upto(iv, label@, k as int),
            decreases self.issues.len() - k,
        {
            let ghost before = r.deep_view();
            assert(iv[k as int] == self.issues[k as int]@);
            if contains_text(&self.issues[k].labels, &text) {
                r.push(self.issues[k].clone());
                assert(r.deep_view() =~= before.push(iv[k as int]));
            }
            k = k + 1;
        }
        r
    }

    /// The highest id of a stored comment; the number before the counter
    /// where none is higher.
    fn highest_comment(&self) -> (h: i128)
        ensures
            h == crate::store::highest_comment_id(
                self@.issues,
                self@.next_comment_id - 1,
                self@.issues.len() as int,
            ),
    {
        let ghost iv = self.issues.deep_view();
        let ghost floor: int = self.next_comment_id - 1;
        let mut h: i128 = self.next_comment_id as i128 - 1;
        let mut k: usize = 0;
        while k < self.issues.len()
            invariant
                k <= self.issues.len(),
                iv == self.issues.deep_view(),
                floor == self.next_comment_id - 1,
                h == crate::store::highest_comment_id(iv, floor, k as int),
                -0x8000_0000_0000_0000 - 1 <= h <= 0x7fff_ffff_ffff_ffff,
            decreases self.issues.len() - k,
        {
            assert(iv[k as int] == self.issues[k as int]@);
            let comments = &self.issues[k].comments;
            let ghost cv = comments.deep_view();
            let ghost start: int = h as int;
            let mut c: usize = 0;
            while c < comments.len()
                invariant
                    c <= comments.len(),
                    cv == comments.deep_view(),
                    h == crate::store::highest_in(cv, start, c as int),
                    -0x8000_0000_0000_0000 - 1 <= h <= 0x7fff_ffff_ffff_ffff,
                decreases comments.len() - c,
            {
                assert(cv[c as int] == comments[c as int]@);
                if comments[c].id as i128 > h {
                    h = comments[c].id as i128;
                }
                c = c + 1;
            }
            k = k + 1;
        }
        h
    }

    /// Adds a comment to an issue at the time `now` and returns it. The
    /// comment gets an id that no stored comment has: the number of the
    /// counter, or the number after the highest stored id where that is
    /// higher. The comment is recorded as an event and the issue is marked
    /// dirty. Fails, and changes nothing, where the store has no such
    /// issue or the ids have run out.
    pub fn add_issue_comment_at(&mut self, issue_id: &str, author: &str, text: &str, now: i64) -> (r:
        Result<Comment, StoreError>)
        ensures
            is_comment_outcome(old(self)@, final(self)@, r, issue_id@, author@, text@, now),
    {
        let p = match self.find(issue_id) {
            None => {
                return Err(StoreError::NotFound(issue_id.to_owned()));
            },
            Some(p) => p,
        };
        let highest = self.highest_comment();
        if highest >= 0x7fff_ffff_ffff_ffff {
            return Err(StoreError::Store("no comment ids left".to_owned()));
        }
        let id: i64 = (highest + 1) as i64;
        proof {
            crate::store::lemma_fresh_comment_id(self@);
        }
        let ghost before = self.issues.deep_view();
        assert(before[p as int] == self.issues[p as int]@);
        let comment = Comment {
            id: id,
            issue_id: issue_id.to_owned(),
            author: author.to_owned(),
            text: text.to_owned(),
            created_at: now,
        };
        let ghost old_comments = self.issues[p as int].comments.deep_view();
        self.issues[p].comments.push(comment.clone());
        self.next_comment_id = bump(id);
        proof {
            let after = self.issues.deep_view();
            assert(after[p as int] == self.issues[p as int]@);
            assert(self.issues[p as int].comments.deep_view() =~= old_comments.push(comment@));
            assert(after =~= before.update(
                p as int,
                IssueView { comments: old_comments.push(comment@), ..before[p as int] },
            ));
        }
        self.record_event(issue_id, EventType::Commented, author, None, None, Some(text), now);
        self.mark_dirty_at(issue_id, now);
        Ok(comment)
    }

    /// Adds a comment to an issue now and returns it.
    pub fn add_issue_comment(&mut self, issue_id: &str, author: &str, text: &str) -> (r: Result<
        Comment,
        StoreError,
    >)
        ensures
            exists|now: i64| #[trigger]
                is_comment_outcome(old(self)@, final(self)@, r, issue_id@, author@, text@, now),
    {
        let now = now_micros();
        self.add_issue_comment_at(issue_id, author, text, now)
    }

    /// Adds a comment to an issue at the time `now`.
    pub fn add_comment_at(&mut self, issue_id: &str, actor: &str, comment: &str, now: i64) -> (r:
        Result<(), StoreError>)
        ensures
            exists|c: Result<Comment, StoreError>|
                #[trigger] is_comment_outcome(old(self)@, final(self)@, c, issue_id@, actor@, comment@, now)
                    && (r is Ok <==> c is Ok) && (r is Err ==> r->Err_0 == c->Err_0),
    {
        let c = self.add_issue_comment_at(issue_id, actor, comment, now);
        match c {
            Ok(_) => Ok(()),
            Err(e) => Err(e),
        }
    }

    /// Adds a comment to an issue now.
    pub fn add_comment(&mut self, issue_id: &str, actor: &str, comment: &str) -> (r: Result<
        (),
        StoreError,
    >)
        ensures
            exists|now: i64, c: Result<Comment, StoreError>|
                #[trigger] is_comment_outcome(old(self)@, final(self)@, c, issue_id@, actor@, comment@, now)
                    && (r is Ok <==> c is Ok) && (r is Err ==> r->Err_0 == c->Err_0),
    {
        let now = now_micros();
        self.add_comment_at(issue_id, actor, comment, now)
    }

    /// The comments of an issue; none where the store has no such issue.
    pub fn get_issue_comments(&self, issue_id: &str) -> (r: Vec<Comment>)
        ensures
            r.deep_view() == if self@.has(issue_id@) {
                self@.issue(issue_id@).comments
            } else {
                Seq::empty()
            },
    {
        match self.find(issue_id) {
            Some(p) => {
                assert(self.issues.deep_view()[p as int] == self.issues[p as int]@);
                clone_comments(&self.issues[p].comments)
            },
            None => {
                let r: Vec<Comment> = Vec::new();
                assert(r.deep_view() =~= Seq::<crate::types::CommentView>::empty());
                r
            },
        }
    }

    /// The events about an issue in the order in which they were recorded,
    /// at most `limit` of them, all where `limit` is zero or less.
    pub fn get_events(&self, issue_id: &str, limit: i32) -> (r: Vec<Event>)
        ensures
            r.deep_view() == crate::work::limited(
                crate::store::events_of(self@.events, issue_id@, self@.events.len() as int),
                limit as int,
            ),
    {
        let ghost ev = self.events.deep_view();
        let id: String = issue_id.to_owned();
        let mut r: Vec<Event> = Vec::new();
        let mut k: usize = 0;
        assert(r.deep_view() =~= crate::store::events_of(ev, issue_id@, 0));
        while k < self.events.len()
            invariant
                k <= self.events.len(),
                ev == self.events.deep_view(),
                id@ == issue_id@,
                r.deep_view() == crate::store::events_of(ev, issue_id@, k as int),
            decreases self.events.len() - k,
        {
            let ghost before = r.deep_view();
            assert(ev[k as int] == self.events[k as int]@);
            if self.events[k].issue_id == id {
                r.push(self.events[k].clone());
                assert(r.deep_view() =~= before.push(ev[k as int]));
            }
            k = k + 1;
        }
        if limit > 0 && (limit as usize) < r.len() {
            let ghost all = r.deep_view();
            r.truncate(limit as usize);
            assert(r.deep_view() =~= all.take(limit as int));
        }
        r
    }
}



impl MemoryStorage {
    /// The edges of the issues of the store by the issue that they leave.
    /// An issue without edges has no entry.
    fn held_records(&self) -> (records: vstd::hash_map::StringHashMap<Vec<Dependency>>)
        ensures
            forall|id: Seq<char>| #[trigger]
                records@.contains_key(id) <==> self@.has(id) && self@.issue(id).dependencies.len() > 0,
            forall|id: Seq<char>| #[trigger]
                records@.contains_key(id) ==> records@[id].deep_view() == self@.issue(id).dependencies,
    {
        let ghost iv = self.issues.deep_view();
        let index = crate::index::build_index(&self.issues);
        let mut records: vstd::hash_map::StringHashMap<Vec<Dependency>> =
            vstd::hash_map::StringHashMap::new();
        let mut k: usize = 0;
        while k < self.issues.len()
            invariant
                k <= self.issues.len(),
                iv == self.issues.deep_view(),
                crate::index::is_index_of(index@, iv),
                forall|id: Seq<char>| #[trigger]
                    records@.contains_key(id) <==> has_issue(iv, id) && 0 <= first_index(iv, id) < k
                        && iv[first_index(iv, id)].dependencies.len() > 0,
                forall|id: Seq<char>| #[trigger]
                    records@.contains_key(id) ==> records@[id].deep_view() == iv[first_index(
                        iv,
                        id,
                    )].dependencies,
            decreases self.issues.len() - k,
        {
            let issue = &self.issues[k];
            assert(iv[k as int] == issue@);
            let first = match crate::index::lookup(&index, issue.id.as_str(), Ghost(iv)) {
                Some(q) => q == k,
                None => false,
            };
            let ghost before = records@;
            if first && issue.dependencies.len() > 0 {
                records.insert(issue.id.clone(), clone_dependencies(&issue.dependencies));
            }
            proof {
                assert forall|id: Seq<char>| #[trigger]
                    records@.contains_key(id) <==> has_issue(iv, id) && 0 <= first_index(iv, id) < k
                        + 1 && iv[first_index(iv, id)].dependencies.len() > 0 by {
                    if has_issue(iv, id) && first_index(iv, id) == k {
                        let w = choose|w: int| 0 <= w < iv.len() && #[trigger] iv[w].id == id;
                        lemma_first_index_exists(iv, id, w);
                        assert(iv[k as int].id == id);
                    }
                }
            }
            k = k + 1;
        }
        proof {
            assert forall|id: Seq<char>| #[trigger]
                records@.contains_key(id) <==> self@.has(id) && self@.issue(id).dependencies.len()
                    > 0 by {
                if has_issue(iv, id) {
                    let w = choose|w: int| 0 <= w < iv.len() && #[trigger] iv[w].id == id;
                    lemma_first_index_exists(iv, id, w);
                }
            }
        }
        records
    }

    /// The edges of the store by the id of the issue that they leave: the
    /// edges of each issue, and the loose edges under the id that they
    /// were added for. An id without edges has no entry.
    pub fn get_all_dependency_records(&self) -> (records: vstd::hash_map::StringHashMap<
        Vec<Dependency>,
    >)
        ensures
            forall|id: Seq<char>| #[trigger]
                records@.contains_key(id) <==> self@.edges_from(id).len() > 0,
            forall|id: Seq<char>| #[trigger]
                records@.contains_key(id) ==> records@[id].deep_view() == self@.edges_from(id),
    {
        let mut records = self.held_records();
        let ghost s = self@;
        let ghost lv = self.loose.deep_view();
        let mut j: usize = 0;
        while j < self.loose.len()
            invariant
                j <= self.loose.len(),
                s == self@,
                lv == self.loose.deep_view(),
                forall|id: Seq<char>| #[trigger]
                    records@.contains_key(id) <==> if s.has(id) {
                        s.issue(id).dependencies.len() > 0
                    } else {
                        leaves_upto(lv, id, j as int)
                    },
                forall|id: Seq<char>| #[trigger]
                    records@.contains_key(id) ==> records@[id].deep_view() == s.edges_from(id),
            decreases self.loose.len() - j,
        {
            let edge = &self.loose[j];
            assert(lv[j as int] == edge@);
            let ghost x = edge@.issue_id;
            let held = self.find(edge.issue_id.as_str()).is_some();
            if !held && !records.contains_key(edge.issue_id.as_str()) {
                let list = pick_source(&self.loose, &edge.issue_id);
                records.insert(edge.issue_id.clone(), list);
            }
            proof {
                assert(leaves_upto(lv, x, j + 1));
                assert forall|id: Seq<char>| id != x implies leaves_upto(lv, id, j + 1)
                    == leaves_upto(lv, id, j as int) by {
                    if leaves_upto(lv, id, j + 1) {
                        let m = choose|m: int| 0 <= m < j + 1 && (#[trigger] lv[m]).issue_id == id;
                        assert(m < j);
                    }
                    if leaves_upto(lv, id, j as int) {
                        let m = choose|m: int| 0 <= m < j && (#[trigger] lv[m]).issue_id == id;
                        assert(m < j + 1);
                    }
                }
            }
            j = j + 1;
        }
        proof {
            assert forall|id: Seq<char>| #[trigger]
                records@.contains_key(id) <==> s.edges_from(id).len() > 0 by {
                if !s.has(id) {
                    lemma_from_source_some(lv, id, lv.len() as int);
                }
            }
        }
        records
    }
}

/// Whether one of the first `k` edges of a list leaves the issue `id`.
pub open spec fn leaves_upto(deps: Seq<DependencyView>, id: Seq<char>, k: int) -> bool {
    exists|m: int| 0 <= m < k && (#[trigger] deps[m]).issue_id == id
}

/// A list holds an edge that leaves an issue exactly when the edges that
/// leave the issue are not none.
proof fn lemma_from_source_some(deps: Seq<DependencyView>, id: Seq<char>, k: int)
    requires
        0 <= k <= deps.len(),
    ensures
        from_source(deps, id, k).len() > 0 <==> leaves_upto(deps, id, k),
    decreases k,
{
    if k > 0 {
        lemma_from_source_some(deps, id, k - 1);
        if deps[k - 1].issue_id == id {
            assert(leaves_upto(deps, id, k));
        } else {
            if leaves_upto(deps, id, k) {
                let m = choose|m: int| 0 <= m < k && (#[trigger] deps[m]).issue_id == id;
                assert(m < k - 1);
            }
            if leaves_upto(deps, id, k - 1) {
                let m = choose|m: int| 0 <= m < k - 1 && (#[trigger] deps[m]).issue_id == id;
                assert(m < k);
            }
        }
    }
}

} // verus!
