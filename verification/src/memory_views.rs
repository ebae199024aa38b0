//! The views of a store in memory: ready and blocked work, epics, stale
//! issues, cycles, trees, counts and statistics.

use vstd::prelude::*;
use vstd::string::*;
use crate::memory::MemoryStorage;
use crate::storage::{now_micros, StoreError, StoreErrorView};
use crate::text::has_text;
use crate::types::{Issue, IssueView, Status};

verus! {


proof fn lemma_lead_time_bounded(issues: Seq<IssueView>, k: int)
    requires
        0 <= k,
    ensures
        0 <= crate::store::lead_time_sum(issues, k) <= k * 0x1_0000_0000_0000,
        crate::store::lead_time_count(issues, k) <= k,
        crate::store::count_status(issues, Status::Open, k) <= k,
        crate::store::count_status(issues, Status::InProgress, k) <= k,
        crate::store::count_status(issues, Status::Closed, k) <= k,
    decreases k,
{
    if k > 0 {
        lemma_lead_time_bounded(issues, k - 1);
        if crate::store::has_lead_time(issues[k - 1]) {
            let d: int = issues[k - 1].closed_at->0 - issues[k - 1].created_at;
            assert(0 <= d < 0x1_0000_0000_0000_0000);
            assert(0 <= d / 1_000_000 <= 0x1_0000_0000_0000);
        }
    }
}

proof fn lemma_count_set_bounded(flags: Seq<bool>, k: int)
    requires
        0 <= k,
    ensures
        crate::store::count_set(flags, k) <= k,
    decreases k,
{
    if k > 0 {
        lemma_count_set_bounded(flags, k - 1);
    }
}

proof fn lemma_count_eligible_bounded(epics: Seq<crate::types::EpicStatusView>, k: int)
    requires
        0 <= k,
    ensures
        crate::store::count_eligible(epics, k) <= k,
    decreases k,
{
    if k > 0 {
        lemma_count_eligible_bounded(epics, k - 1);
    }
}

impl MemoryStorage {
    /// The ready work of the store at the time `now`.
    pub fn get_ready_work_at(&self, filter: &crate::types::WorkFilter, now: i64) -> (r: Vec<Issue>)
        ensures
            crate::work::is_listing(
                self@.issues,
                crate::work::work_keys(self@.issues, filter.sort_policy, now),
                crate::work::ready_flags(self@.issues, self@.edges(), filter@),
                filter.limit as int,
                r.deep_view(),
            ),
    {
        let deps = self.all_dependencies();
        crate::work::ready_work(&self.issues, &deps, filter, now)
    }

    /// The ready work of the store now.
    pub fn get_ready_work(&self, filter: &crate::types::WorkFilter) -> (r: Vec<Issue>)
        ensures
            exists|now: i64|
                crate::work::is_listing(
                    self@.issues,
                    #[trigger] crate::work::work_keys(self@.issues, filter.sort_policy, now),
                    crate::work::ready_flags(
                        self@.issues,
                        self@.edges(),
                        filter@,
                    ),
                    filter.limit as int,
                    r.deep_view(),
                ),
    {
        let now = now_micros();
        self.get_ready_work_at(filter, now)
    }

    /// The blocked issues of the store.
    pub fn get_blocked_issues(&self) -> (r: Vec<crate::types::BlockedIssue>)
        ensures
            r.deep_view() == crate::work::blocked_upto(
                self@.issues,
                self@.edges(),
                self@.issues.len() as int,
            ),
    {
        let deps = self.all_dependencies();
        crate::work::blocked_issues(&self.issues, &deps)
    }

    /// The epics of the store with the state of their children.
    pub fn get_epics_eligible_for_closure(&self) -> (r: Vec<crate::types::EpicStatus>)
        ensures
            r.deep_view() == crate::work::epics_upto(
                self@.issues,
                self@.edges(),
                self@.issues.len() as int,
            ),
    {
        let deps = self.all_dependencies();
        crate::work::epics_eligible_for_closure(&self.issues, &deps)
    }

    /// The stale issues of the store at the time `now`.
    pub fn get_stale_issues_at(&self, filter: &crate::types::StaleFilter, now: i64) -> (r: Vec<Issue>)
        ensures
            crate::work::is_listing(
                self@.issues,
                crate::work::stale_keys(self@.issues),
                crate::work::stale_flags(self@.issues, filter.days, filter.status@, now),
                filter.limit as int,
                r.deep_view(),
            ),
    {
        crate::work::stale_issues(&self.issues, filter, now)
    }

    /// The stale issues of the store now.
    pub fn get_stale_issues(&self, filter: &crate::types::StaleFilter) -> (r: Vec<Issue>)
        ensures
            exists|now: i64|
                crate::work::is_listing(
                    self@.issues,
                    crate::work::stale_keys(self@.issues),
                    #[trigger] crate::work::stale_flags(
                        self@.issues,
                        filter.days,
                        filter.status@,
                        now,
                    ),
                    filter.limit as int,
                    r.deep_view(),
                ),
    {
        let now = now_micros();
        self.get_stale_issues_at(filter, now)
    }

    /// The cycles among the edges that order work.
    pub fn detect_cycles(&self) -> (cycles: Vec<Vec<Issue>>)
        ensures
            crate::cycles::is_cycle_report(
                self@.issues,
                self@.edges(),
                cycles.deep_view(),
            ),
            cycles.len() == 0 <==> crate::cycles::acyclic(
                self@.issues,
                self@.edges(),
            ),
    {
        let deps = self.all_dependencies();
        crate::cycles::detect_cycles(&self.issues, &deps)
    }

    /// The dependency tree of an issue of the store.
    pub fn get_dependency_tree(
        &self,
        issue_id: &str,
        max_depth: i32,
        show_all_paths: bool,
        reverse: bool,
    ) -> (r: Result<Vec<crate::types::TreeNode>, StoreError>)
        ensures
            match r {
                Ok(tree) => self@.has(issue_id@) && tree.deep_view() == crate::tree::tree_of(
                    self@.issues,
                    self@.edges(),
                    issue_id@,
                    max_depth,
                    show_all_paths,
                    reverse,
                ),
                Err(e) => !self@.has(issue_id@) && e@ == StoreErrorView::NotFound(issue_id@),
            },
    {
        if self.find(issue_id).is_none() {
            return Err(StoreError::NotFound(issue_id.to_owned()));
        }
        let deps = self.all_dependencies();
        Ok(
            crate::tree::dependency_tree(
                &self.issues,
                &deps,
                issue_id,
                max_depth,
                show_all_paths,
                reverse,
            ),
        )
    }

    /// The edge counts of the given issues.
    pub fn get_dependency_counts(&self, issue_ids: &Vec<String>) -> (counts:
        vstd::hash_map::StringHashMap<crate::types::DependencyCounts>)
        ensures
            forall|id: Seq<char>| #[trigger]
                counts@.contains_key(id) <==> has_text(issue_ids.deep_view(), id),
            forall|id: Seq<char>| #[trigger]
                counts@.contains_key(id) ==> counts@[id] == crate::counts::counts_of(
                    self@.edges(),
                    id,
                ),
    {
        let deps = self.all_dependencies();
        crate::counts::dependency_counts(issue_ids, &deps)
    }

    /// Counts over the store: the issues by status, the blocked and the
    /// ready ones, the epics that can be closed, and the lead time of the
    /// closed issues as a sum in seconds beside their number.
    pub fn get_statistics(&self) -> (r: crate::types::Statistics)
        ensures
            r.total_issues == crate::work::stored_count(self@.issues.len()),
            r.open_issues == crate::work::stored_count(
                crate::store::count_status(self@.issues, Status::Open, self@.issues.len() as int),
            ),
            r.in_progress_issues == crate::work::stored_count(
                crate::store::count_status(
                    self@.issues,
                    Status::InProgress,
                    self@.issues.len() as int,
                ),
            ),
            r.closed_issues == crate::work::stored_count(
                crate::store::count_status(self@.issues, Status::Closed, self@.issues.len() as int),
            ),
            r.blocked_issues == crate::work::stored_count(
                crate::work::blocked_upto(
                    self@.issues,
                    self@.edges(),
                    self@.issues.len() as int,
                ).len(),
            ),
            r.ready_issues == crate::work::stored_count(
                crate::store::count_set(
                    crate::work::ready_flags(
                        self@.issues,
                        self@.edges(),
                        crate::types::WorkFilterView {
                            status: Status::Open,
                            priority: None,
                            assignee: None,
                            labels: Seq::empty(),
                            labels_any: Seq::empty(),
                            limit: 0,
                            sort_policy: crate::types::SortPolicy::Hybrid,
                        },
                    ),
                    self@.issues.len() as int,
                ),
            ),
            r.epics_eligible_for_closure == crate::work::stored_count(
                crate::store::count_eligible(
                    crate::work::epics_upto(
                        self@.issues,
                        self@.edges(),
                        self@.issues.len() as int,
                    ),
                    crate::work::epics_upto(
                        self@.issues,
                        self@.edges(),
                        self@.issues.len() as int,
                    ).len() as int,
                ),
            ),
            r.lead_time_seconds == crate::store::stored_sum(
                crate::store::lead_time_sum(self@.issues, self@.issues.len() as int),
            ),
            r.lead_time_samples == crate::work::stored_count(
                crate::store::lead_time_count(self@.issues, self@.issues.len() as int),
            ),
    {
        let ghost iv = self.issues.deep_view();
        let n = self.issues.len();
        let mut open: usize = 0;
        let mut in_progress: usize = 0;
        let mut closed: usize = 0;
        let mut samples: usize = 0;
        let mut lead: i128 = 0;
        let mut k: usize = 0;
        while k < n
            invariant
                k <= n,
                n == self.issues.len(),
                iv == self.issues.deep_view(),
                open == crate::store::count_status(iv, Status::Open, k as int),
                in_progress == crate::store::count_status(iv, Status::InProgress, k as int),
                closed == crate::store::count_status(iv, Status::Closed, k as int),
                samples == crate::store::lead_time_count(iv, k as int),
                lead == crate::store::lead_time_sum(iv, k as int),
            decreases n - k,
        {
            let issue = &self.issues[k];
            assert(iv[k as int] == issue@);
            proof {
                lemma_lead_time_bounded(iv, k as int);
                lemma_lead_time_bounded(iv, k + 1);
            }
            match issue.status {
                Status::Open => {
                    open = open + 1;
                },
                Status::InProgress => {
                    in_progress = in_progress + 1;
                },
                Status::Closed => {
                    closed = closed + 1;
                    match issue.closed_at {
                        Some(at) => {
                            if at >= issue.created_at {
                                let span: i128 = at as i128 - issue.created_at as i128;
                                lead = lead + span / 1_000_000;
                                samples = samples + 1;
                            }
                        },
                        None => {},
                    }
                },
                Status::Blocked => {},
            }
            k = k + 1;
        }
        let blocked = self.get_blocked_issues();
        let deps = self.all_dependencies();
        let filter = crate::types::WorkFilter::default();
        let flags = crate::work::ready_selection(&self.issues, &deps, &filter);
        let mut ready: usize = 0;
        let mut k: usize = 0;
        while k < flags.len()
            invariant
                k <= flags.len(),
                ready == crate::store::count_set(flags@, k as int),
            decreases flags.len() - k,
        {
            proof {
                lemma_count_set_bounded(flags@, k as int);
            }
            if flags[k] {
                ready = ready + 1;
            }
            k = k + 1;
        }
        let epics = self.get_epics_eligible_for_closure();
        let ghost ev = epics.deep_view();
        let mut eligible: usize = 0;
        let mut k: usize = 0;
        while k < epics.len()
            invariant
                k <= epics.len(),
                ev == epics.deep_view(),
                eligible == crate::store::count_eligible(ev, k as int),
            decreases epics.len() - k,
        {
            proof {
                lemma_count_eligible_bounded(ev, k as int);
            }
            assert(ev[k as int] == epics[k as int]@);
            if epics[k].eligible_for_close {
                eligible = eligible + 1;
            }
            k = k + 1;
        }
        let lead_time_seconds: i64 = if lead > 0x7fff_ffff_ffff_ffff {
            i64::MAX
        } else if lead < 0 {
            0
        } else {
            lead as i64
        };
        crate::types::Statistics {
            total_issues: crate::work::count_of(n),
            open_issues: crate::work::count_of(open),
            in_progress_issues: crate::work::count_of(in_progress),
            closed_issues: crate::work::count_of(closed),
            blocked_issues: crate::work::count_of(blocked.len()),
            ready_issues: crate::work::count_of(ready),
            epics_eligible_for_closure: crate::work::count_of(eligible),
            lead_time_seconds: lead_time_seconds,
            lead_time_samples: crate::work::count_of(samples),
        }
    }
}

} // verus!
