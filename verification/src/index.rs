//! Finding issues by id in a snapshot.
//!
//! A snapshot is a list of issues as read from a store. Where two issues of
//! a snapshot carry the same id, the first one stands for that id.

use vstd::prelude::*;
use vstd::hash_map::StringHashMap;
use crate::types::{Issue, IssueView};

verus! {

/// Whether some issue of the snapshot has the given id.
pub open spec fn has_issue(issues: Seq<IssueView>, id: Seq<char>) -> bool {
    exists|i: int| 0 <= i < issues.len() && #[trigger] issues[i].id == id
}

/// Whether `i` is the position of the first issue with the given id.
pub open spec fn is_first_index(issues: Seq<IssueView>, id: Seq<char>, i: int) -> bool {
    &&& 0 <= i < issues.len()
    &&& issues[i].id == id
    &&& forall|j: int| 0 <= j < i ==> #[trigger] issues[j].id != id
}

/// The position of the first issue with the given id, where there is one.
pub open spec fn first_index(issues: Seq<IssueView>, id: Seq<char>) -> int {
    choose|i: int| is_first_index(issues, id, i)
}

/// An id has at most one first position.
pub proof fn lemma_first_index_unique(issues: Seq<IssueView>, id: Seq<char>, i: int, j: int)
    requires
        is_first_index(issues, id, i),
        is_first_index(issues, id, j),
    ensures
        i == j,
        first_index(issues, id) == i,
{
    if i < j {
        assert(issues[i].id != id);
    }
    if j < i {
        assert(issues[j].id != id);
    }
    let c = first_index(issues, id);
    assert(is_first_index(issues, id, c));
    if c < i {
        assert(issues[c].id != id);
    }
    if i < c {
        assert(issues[i].id != id);
    }
}

/// An id that occurs at position `i` has a first position, not after `i`.
pub proof fn lemma_first_index_exists(issues: Seq<IssueView>, id: Seq<char>, i: int)
    requires
        0 <= i < issues.len(),
        issues[i].id == id,
    ensures
        is_first_index(issues, id, first_index(issues, id)),
        first_index(issues, id) <= i,
    decreases i,
{
    if forall|j: int| 0 <= j < i ==> #[trigger] issues[j].id != id {
        assert(is_first_index(issues, id, i));
        lemma_first_index_unique(issues, id, i, i);
    } else {
        let j = choose|j: int| 0 <= j < i && #[trigger] issues[j].id == id;
        lemma_first_index_exists(issues, id, j);
    }
}

/// Whether a map from ids to positions is the index of a snapshot: it holds
/// exactly the ids that occur, each with its first position.
pub open spec fn is_index_of(map: Map<Seq<char>, usize>, issues: Seq<IssueView>) -> bool {
    &&& forall|id: Seq<char>| #[trigger] map.contains_key(id) <==> has_issue(issues, id)
    &&& forall|id: Seq<char>| #[trigger]
        map.contains_key(id) ==> is_first_index(issues, id, map[id] as int)
}

/// Builds the index of a snapshot.
pub fn build_index(issues: &Vec<Issue>) -> (index: StringHashMap<usize>)
    ensures
        is_index_of(index@, issues.deep_view()),
{
    let ghost views = issues.deep_view();
    let mut index: StringHashMap<usize> = StringHashMap::new();
    let mut i: usize = 0;
    while i < issues.len()
        invariant
            i <= issues.len(),
            views == issues.deep_view(),
            forall|id: Seq<char>| #[trigger]
                index@.contains_key(id) <==> has_issue(views.take(i as int), id),
            forall|id: Seq<char>| #[trigger]
                index@.contains_key(id) ==> is_first_index(views, id, index@[id] as int)
                    && index@[id] < i,
        decreases issues.len() - i,
    {
        let ghost id_i = issues[i as int].id@;
        let ghost before = index@;
        assert(views[i as int].id == id_i);
        let known = index.contains_key(issues[i].id.as_str());
        if !known {
            index.insert(issues[i].id.clone(), i);
            assert forall|j: int| 0 <= j < i implies #[trigger] views[j].id != id_i by {
                if views[j].id == id_i {
                    assert(views.take(i as int)[j].id == id_i);
                    assert(has_issue(views.take(i as int), id_i));
                }
            }
        }
        assert forall|id: Seq<char>| #[trigger]
            index@.contains_key(id) <==> has_issue(views.take(i + 1), id) by {
            if has_issue(views.take(i + 1), id) {
                let j = choose|j: int|
                    0 <= j < views.take(i + 1).len() && #[trigger] views.take(i + 1)[j].id == id;
                if j < i {
                    assert(views.take(i as int)[j].id == id);
                    assert(has_issue(views.take(i as int), id));
                }
            }
            if index@.contains_key(id) {
                if before.contains_key(id) {
                    let j = choose|j: int|
                        0 <= j < views.take(i as int).len() && #[trigger] views.take(i as int)[j].id
                            == id;
                    assert(views.take(i + 1)[j].id == id);
                } else {
                    assert(views.take(i + 1)[i as int].id == id);
                }
            }
        }
        i = i + 1;
    }
    assert(views.take(i as int) =~= views);
    index
}

/// Looks up the position of the issue that stands for an id.
pub(crate) fn lookup(index: &StringHashMap<usize>, id: &str, Ghost(issues): Ghost<Seq<IssueView>>) -> (r:
    Option<usize>)
    requires
        is_index_of(index@, issues),
    ensures
        r is Some <==> has_issue(issues, id@),
        r is Some ==> is_first_index(issues, id@, r->0 as int) && r->0 as int == first_index(
            issues,
            id@,
        ),
{
    match index.get(id) {
        Some(p) => {
            proof {
                lemma_first_index_unique(issues, id@, *p as int, *p as int);
            }
            Some(*p)
        },
        None => None,
    }
}

} // verus!
