//! Searching the issues of a store by a filter and a text.

use vstd::prelude::*;
use vstd::string::*;
use crate::memory::MemoryStorage;
use crate::text::{contains_text, has_text};
use crate::types::{Issue, IssueFilter, IssueView, opt_text};
use crate::work::{has_all_labels, has_any_label, limited};

verus! {

/// Whether a text occurs in another as a run of characters.
pub open spec fn is_infix(hay: Seq<char>, needle: Seq<char>) -> bool {
    exists|i: int|
        0 <= i && i + needle.len() <= hay.len() && #[trigger] hay.subrange(i, i + needle.len())
            == needle
}

/// The characters of a text.
fn chars_of(text: &str) -> (v: Vec<char>)
    ensures
        v@ == text@,
{
    let mut v: Vec<char> = Vec::new();
    for c in it: text.chars()
        invariant
            v@ == it.seq().take(it.index()),
    {
        let ghost before = v@;
        v.push(c);
        assert(v@ =~= it.seq().take(it.index() + 1));
    }
    assert(v@ =~= text@);
    v
}

/// Whether a run of characters occurs in another.
fn contains_chars(hay: &Vec<char>, needle: &Vec<char>) -> (found: bool)
    ensures
        found == is_infix(hay@, needle@),
{
    let n = needle.len();
    if n > hay.len() {
        return false;
    }
    let last = hay.len() - n;
    let mut i: usize = 0;
    while i <= last
        invariant
            n == needle.len(),
            n <= hay.len(),
            last == hay.len() - n,
            i <= last + 1,
            forall|k: int| 0 <= k < i ==> #[trigger] hay@.subrange(k, k + n) != needle@,
        decreases last + 1 - i,
    {
        let mut j: usize = 0;
        while j < n && hay[i + j] == needle[j]
            invariant
                n == needle.len(),
                i + n <= hay.len(),
                j <= n,
                forall|t: int| 0 <= t < j ==> hay@[i + t] == needle@[t],
            decreases n - j,
        {
            j = j + 1;
        }
        if j == n {
            assert(hay@.subrange(i as int, i + n) =~= needle@);
            return true;
        }
        assert(hay@.subrange(i as int, i + n)[j as int] != needle@[j as int]);
        i = i + 1;
    }
    false
}

/// Whether a text occurs in another as a run of characters.
pub fn text_contains(hay: &str, needle: &str) -> (found: bool)
    ensures
        found == is_infix(hay@, needle@),
{
    let h = chars_of(hay);
    let n = chars_of(needle);
    contains_chars(&h, &n)
}

/// The view of a filter for a search.
pub struct IssueFilterView {
    pub status: Option<crate::types::Status>,
    pub priority: Option<i32>,
    pub issue_type: Option<crate::types::IssueType>,
    pub assignee: Option<Seq<char>>,
    pub labels: Seq<Seq<char>>,
    pub labels_any: Seq<Seq<char>>,
    pub title_search: Seq<char>,
    pub ids: Seq<Seq<char>>,
    pub limit: i32,
    pub title_contains: Seq<char>,
    pub description_contains: Seq<char>,
    pub notes_contains: Seq<char>,
    pub created_after: Option<i64>,
    pub created_before: Option<i64>,
    pub updated_after: Option<i64>,
    pub updated_before: Option<i64>,
    pub closed_after: Option<i64>,
    pub closed_before: Option<i64>,
    pub empty_description: bool,
    pub no_assignee: bool,
    pub no_labels: bool,
    pub priority_min: Option<i32>,
    pub priority_max: Option<i32>,
}

impl View for IssueFilter {
    type V = IssueFilterView;

    open spec fn view(&self) -> IssueFilterView {
        IssueFilterView {
            status: self.status,
            priority: self.priority,
            issue_type: self.issue_type,
            assignee: opt_text(self.assignee),
            labels: self.labels.deep_view(),
            labels_any: self.labels_any.deep_view(),
            title_search: self.title_search@,
            ids: self.ids.deep_view(),
            limit: self.limit,
            title_contains: self.title_contains@,
            description_contains: self.description_contains@,
            notes_contains: self.notes_contains@,
            created_after: self.created_after,
            created_before: self.created_before,
            updated_after: self.updated_after,
            updated_before: self.updated_before,
            closed_after: self.closed_after,
            closed_before: self.closed_before,
            empty_description: self.empty_description,
            no_assignee: self.no_assignee,
            no_labels: self.no_labels,
            priority_min: self.priority_min,
            priority_max: self.priority_max,
        }
    }
}

/// Whether a time lies after `after` and before `before`, where they are
/// given.
pub open spec fn in_range(t: i64, after: Option<i64>, before: Option<i64>) -> bool {
    (after is Some ==> t > after->0) && (before is Some ==> t < before->0)
}

/// Whether an issue has the status, priority, type and assignee that a
/// filter asks for, and a priority within its bounds.
pub open spec fn matches_fields(i: IssueView, f: IssueFilterView) -> bool {
    &&& (f.status is Some ==> i.status == f.status->0)
    &&& (f.priority is Some ==> i.priority == f.priority->0)
    &&& (f.issue_type is Some ==> i.issue_type == f.issue_type->0)
    &&& (f.assignee is Some ==> i.assignee == f.assignee->0)
    &&& (f.priority_min is Some ==> i.priority >= f.priority_min->0)
    &&& (f.priority_max is Some ==> i.priority <= f.priority_max->0)
    &&& (f.empty_description ==> i.description.len() == 0)
    &&& (f.no_assignee ==> i.assignee.len() == 0)
    &&& (f.no_labels ==> i.labels.len() == 0)
    &&& (f.ids.len() > 0 ==> has_text(f.ids, i.id))
}

/// Whether an issue carries the labels that a filter asks for: all of
/// `labels`, and one of `labels_any` if there are any.
pub open spec fn matches_labels(i: IssueView, f: IssueFilterView) -> bool {
    &&& (forall|k: int| 0 <= k < f.labels.len() ==> has_text(i.labels, #[trigger] f.labels[k]))
    &&& (f.labels_any.len() > 0 ==> exists|k: int|
        0 <= k < f.labels_any.len() && has_text(i.labels, #[trigger] f.labels_any[k]))
}

/// Whether the times of an issue lie in the ranges of a filter. An issue
/// that is not closed lies in no range of closing times.
pub open spec fn matches_times(i: IssueView, f: IssueFilterView) -> bool {
    &&& in_range(i.created_at, f.created_after, f.created_before)
    &&& in_range(i.updated_at, f.updated_after, f.updated_before)
    &&& (f.closed_after is Some || f.closed_before is Some ==> i.closed_at is Some && in_range(
        i.closed_at->0,
        f.closed_after,
        f.closed_before,
    ))
}

/// Whether the texts of an issue hold what a filter and a query ask for.
/// The query is looked for in the id, the title and the description.
pub open spec fn matches_texts(i: IssueView, f: IssueFilterView, query: Seq<char>) -> bool {
    &&& is_infix(i.title, f.title_search)
    &&& is_infix(i.title, f.title_contains)
    &&& is_infix(i.description, f.description_contains)
    &&& is_infix(i.notes, f.notes_contains)
    &&& (is_infix(i.id, query) || is_infix(i.title, query) || is_infix(i.description, query))
}

/// Whether an issue is found by a filter and a query.
pub open spec fn is_found(i: IssueView, f: IssueFilterView, query: Seq<char>) -> bool {
    matches_fields(i, f) && matches_labels(i, f) && matches_times(i, f) && matches_texts(i, f, query)
}

/// Those of the first `k` issues that are found.
pub open spec fn found_upto(issues: Seq<IssueView>, f: IssueFilterView, query: Seq<char>, k: int) -> Seq<
    IssueView,
>
    decreases k,
{
    if k <= 0 {
        Seq::empty()
    } else if is_found(issues[k - 1], f, query) {
        found_upto(issues, f, query, k - 1).push(issues[k - 1])
    } else {
        found_upto(issues, f, query, k - 1)
    }
}

fn within(t: i64, after: Option<i64>, before: Option<i64>) -> (b: bool)
    ensures
        b == in_range(t, after, before),
{
    let late_enough = match after {
        Some(a) => t > a,
        None => true,
    };
    let early_enough = match before {
        Some(b) => t < b,
        None => true,
    };
    late_enough && early_enough
}

fn fields_match(issue: &Issue, filter: &IssueFilter) -> (b: bool)
    ensures
        b == matches_fields(issue@, filter@),
{
    let status_ok = match filter.status {
        Some(s) => issue.status == s,
        None => true,
    };
    let priority_ok = match filter.priority {
        Some(p) => issue.priority == p,
        None => true,
    };
    let type_ok = match filter.issue_type {
        Some(t) => issue.issue_type == t,
        None => true,
    };
    let assignee_ok = match &filter.assignee {
        Some(a) => issue.assignee == *a,
        None => true,
    };
    let min_ok = match filter.priority_min {
        Some(p) => issue.priority >= p,
        None => true,
    };
    let max_ok = match filter.priority_max {
        Some(p) => issue.priority <= p,
        None => true,
    };
    let description_ok = !filter.empty_description || issue.description.as_str().is_empty();
    let nobody_ok = !filter.no_assignee || issue.assignee.as_str().is_empty();
    let bare_ok = !filter.no_labels || issue.labels.len() == 0;
    assert(filter@.ids == filter.ids.deep_view());
    assert(issue@.labels.len() == issue.labels.len());
    let id_ok = filter.ids.len() == 0 || contains_text(&filter.ids, &issue.id);
    status_ok && priority_ok && type_ok && assignee_ok && min_ok && max_ok && description_ok
        && nobody_ok && bare_ok && id_ok
}

fn labels_match(issue: &Issue, filter: &IssueFilter) -> (b: bool)
    ensures
        b == matches_labels(issue@, filter@),
{
    assert(filter@.labels == filter.labels.deep_view());
    assert(filter@.labels_any == filter.labels_any.deep_view());
    let all = has_all_labels(issue, &filter.labels);
    assert(all == (forall|k: int|
        0 <= k < filter@.labels.len() ==> has_text(issue@.labels, #[trigger] filter@.labels[k])));
    if !all {
        return false;
    }
    if filter.labels_any.len() > 0 {
        has_any_label(issue, &filter.labels_any)
    } else {
        true
    }
}

fn times_match(issue: &Issue, filter: &IssueFilter) -> (b: bool)
    ensures
        b == matches_times(issue@, filter@),
{
    let created_ok = within(issue.created_at, filter.created_after, filter.created_before);
    let updated_ok = within(issue.updated_at, filter.updated_after, filter.updated_before);
    let closed_ok = if filter.closed_after.is_some() || filter.closed_before.is_some() {
        match issue.closed_at {
            Some(t) => within(t, filter.closed_after, filter.closed_before),
            None => false,
        }
    } else {
        true
    };
    created_ok && updated_ok && closed_ok
}

fn texts_match(issue: &Issue, filter: &IssueFilter, query: &str) -> (b: bool)
    ensures
        b == matches_texts(issue@, filter@, query@),
{
    text_contains(issue.title.as_str(), filter.title_search.as_str()) && text_contains(
        issue.title.as_str(),
        filter.title_contains.as_str(),
    ) && text_contains(issue.description.as_str(), filter.description_contains.as_str())
        && text_contains(issue.notes.as_str(), filter.notes_contains.as_str()) && (text_contains(
        issue.id.as_str(),
        query,
    ) || text_contains(issue.title.as_str(), query) || text_contains(
        issue.description.as_str(),
        query,
    ))
}

/// Whether an issue is found by a filter and a query.
pub fn issue_matches(issue: &Issue, filter: &IssueFilter, query: &str) -> (b: bool)
    ensures
        b == is_found(issue@, filter@, query@),
{
    fields_match(issue, filter) && labels_match(issue, filter) && times_match(issue, filter)
        && texts_match(issue, filter, query)
}

impl MemoryStorage {
    /// The issues that a filter and a query find, in the order of the
    /// store, at most `limit` of them, all where `limit` is zero or less.
    ///
    /// An issue is found when it has the status, priority, type and
    /// assignee asked for, a priority within the bounds, all of the labels
    /// and one of the any-of labels, times in the ranges, and texts that
    /// hold the texts asked for. The query is looked for in the id, the
    /// title and the description. An empty text is held by every text.
    pub fn search_issues(&self, query: &str, filter: &IssueFilter) -> (r: Vec<Issue>)
        ensures
            r.deep_view() == limited(
                found_upto(self@.issues, filter@, query@, self@.issues.len() as int),
                filter.limit as int,
            ),
    {
        let ghost iv = self.issues.deep_view();
        let mut r: Vec<Issue> = Vec::new();
        let mut k: usize = 0;
        assert(r.deep_view() =~= found_upto(iv, filter@, query@, 0));
        while k < self.issues.len()
            invariant
                k <= self.issues.len(),
                iv == self.issues.deep_view(),
                r.deep_view() == found_upto(iv, filter@, query@, k as int),
            decreases self.issues.len() - k,
        {
            let ghost before = r.deep_view();
            assert(iv[k as int] == self.issues[k as int]@);
            if issue_matches(&self.issues[k], filter, query) {
                r.push(self.issues[k].clone());
                assert(r.deep_view() =~= before.push(iv[k as int]));
            }
            k = k + 1;
        }
        if filter.limit > 0 && (filter.limit as usize) < r.len() {
            let ghost all = r.deep_view();
            r.truncate(filter.limit as usize);
            assert(r.deep_view() =~= all.take(filter.limit as int));
        }
        r
    }
}

} // verus!
