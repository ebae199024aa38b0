//! Edge counts per issue, taken in one pass over the edges.

use vstd::prelude::*;
use vstd::hash_map::StringHashMap;
use crate::text::{has_text, lemma_has_text_step};
use crate::types::{Dependency, DependencyCounts, DependencyView};
use crate::work::{count_of, stored_count};

verus! {

/// How many of the first `k` edges order work and leave the issue `id`.
pub open spec fn outgoing_upto(deps: Seq<DependencyView>, id: Seq<char>, k: int) -> nat
    decreases k,
{
    if k <= 0 {
        0
    } else {
        outgoing_upto(deps, id, k - 1) + if deps[k - 1].dep_type.spec_is_ordering()
            && deps[k - 1].issue_id == id {
            1nat
        } else {
            0nat
        }
    }
}

/// How many of the first `k` edges order work and arrive at the issue `id`.
pub open spec fn incoming_upto(deps: Seq<DependencyView>, id: Seq<char>, k: int) -> nat
    decreases k,
{
    if k <= 0 {
        0
    } else {
        incoming_upto(deps, id, k - 1) + if deps[k - 1].dep_type.spec_is_ordering()
            && deps[k - 1].depends_on_id == id {
            1nat
        } else {
            0nat
        }
    }
}

/// The counts of an issue: the edges of type `blocks` or `parent-child`
/// that leave it, and those that arrive at it.
pub open spec fn counts_of(deps: Seq<DependencyView>, id: Seq<char>) -> DependencyCounts {
    DependencyCounts {
        dependency_count: stored_count(outgoing_upto(deps, id, deps.len() as int)),
        dependent_count: stored_count(incoming_upto(deps, id, deps.len() as int)),
    }
}

proof fn lemma_counts_bounded(deps: Seq<DependencyView>, id: Seq<char>, k: int)
    requires
        0 <= k,
    ensures
        outgoing_upto(deps, id, k) <= k,
        incoming_upto(deps, id, k) <= k,
    decreases k,
{
    if k > 0 {
        lemma_counts_bounded(deps, id, k - 1);
    }
}

/// Whether a map gives each text of a list a position at which it stands,
/// and holds no other text.
pub open spec fn is_slot_map(map: Map<Seq<char>, usize>, ids: Seq<Seq<char>>) -> bool {
    &&& forall|id: Seq<char>| #[trigger] map.contains_key(id) <==> has_text(ids, id)
    &&& forall|id: Seq<char>| #[trigger]
        map.contains_key(id) ==> map[id] < ids.len() && ids[map[id] as int] == id
}

fn build_slots(ids: &Vec<String>) -> (map: StringHashMap<usize>)
    ensures
        is_slot_map(map@, ids.deep_view()),
{
    let ghost texts = ids.deep_view();
    let mut map: StringHashMap<usize> = StringHashMap::new();
    let mut i: usize = 0;
    while i < ids.len()
        invariant
            i <= ids.len(),
            texts == ids.deep_view(),
            forall|id: Seq<char>| #[trigger] map@.contains_key(id) <==> has_text(texts.take(i as int), id),
            forall|id: Seq<char>| #[trigger]
                map@.contains_key(id) ==> map@[id] < i && texts[map@[id] as int] == id,
        decreases ids.len() - i,
    {
        let ghost before = map@;
        assert(texts[i as int] == ids[i as int]@);
        map.insert(ids[i].clone(), i);
        proof {
            assert forall|id: Seq<char>| #[trigger]
                map@.contains_key(id) <==> has_text(texts.take(i + 1), id) by {
                lemma_has_text_step(texts, id, i as int);
            }
        }
        i = i + 1;
    }
    assert(texts.take(i as int) =~= texts);
    map
}

/// Counts, for each of the given ids, the edges of type `blocks` or
/// `parent-child` that leave the issue and those that arrive at it. The
/// edges are read once.
pub fn dependency_counts(issue_ids: &Vec<String>, deps: &Vec<Dependency>) -> (counts: StringHashMap<
    DependencyCounts,
>)
    ensures
        forall|id: Seq<char>| #[trigger]
            counts@.contains_key(id) <==> has_text(issue_ids.deep_view(), id),
        forall|id: Seq<char>| #[trigger]
            counts@.contains_key(id) ==> counts@[id] == counts_of(deps.deep_view(), id),
{
    let ghost texts = issue_ids.deep_view();
    let ghost dv = deps.deep_view();
    let n = issue_ids.len();
    let slots = build_slots(issue_ids);
    let mut outgoing: Vec<usize> = Vec::new();
    let mut incoming: Vec<usize> = Vec::new();
    let mut i: usize = 0;
    while i < n
        invariant
            i <= n,
            outgoing.len() == i,
            incoming.len() == i,
            forall|s: int| 0 <= s < i ==> outgoing[s] == 0 && incoming[s] == 0,
        decreases n - i,
    {
        outgoing.push(0);
        incoming.push(0);
        i = i + 1;
    }
    let mut k: usize = 0;
    while k < deps.len()
        invariant
            k <= deps.len(),
            n == issue_ids.len(),
            texts == issue_ids.deep_view(),
            dv == deps.deep_view(),
            is_slot_map(slots@, texts),
            outgoing.len() == n,
            incoming.len() == n,
            forall|s: int|
                0 <= s < n && slots@[texts[s]] == s ==> #[trigger] outgoing[s] == outgoing_upto(
                    dv,
                    texts[s],
                    k as int,
                ),
            forall|s: int|
                0 <= s < n && slots@[texts[s]] == s ==> #[trigger] incoming[s] == incoming_upto(
                    dv,
                    texts[s],
                    k as int,
                ),
        decreases deps.len() - k,
    {
        let d = &deps[k];
        assert(dv[k as int] == d@);
        if d.dep_type.is_ordering() {
            match slots.get(d.issue_id.as_str()) {
                Some(s) => {
                    let s: usize = *s;
                    proof {
                        lemma_counts_bounded(dv, texts[s as int], k as int);
                    }
                    outgoing[s] = outgoing[s] + 1;
                },
                None => {},
            }
            match slots.get(d.depends_on_id.as_str()) {
                Some(s) => {
                    let s: usize = *s;
                    proof {
                        lemma_counts_bounded(dv, texts[s as int], k as int);
                    }
                    incoming[s] = incoming[s] + 1;
                },
                None => {},
            }
        }
        proof {
            assert forall|s: int| 0 <= s < n && slots@[texts[s]] == s implies #[trigger] outgoing[s]
                == outgoing_upto(dv, texts[s], k + 1) by {
                assert(has_text(texts, texts[s]));
            }
            assert forall|s: int| 0 <= s < n && slots@[texts[s]] == s implies #[trigger] incoming[s]
                == incoming_upto(dv, texts[s], k + 1) by {
                assert(has_text(texts, texts[s]));
            }
        }
        k = k + 1;
    }
    let mut counts: StringHashMap<DependencyCounts> = StringHashMap::new();
    let mut i: usize = 0;
    while i < n
        invariant
            i <= n,
            n == issue_ids.len(),
            texts == issue_ids.deep_view(),
            dv == deps.deep_view(),
            is_slot_map(slots@, texts),
            outgoing.len() == n,
            incoming.len() == n,
            forall|s: int|
                0 <= s < n && slots@[texts[s]] == s ==> #[trigger] outgoing[s] == outgoing_upto(
                    dv,
                    texts[s],
                    dv.len() as int,
                ),
            forall|s: int|
                0 <= s < n && slots@[texts[s]] == s ==> #[trigger] incoming[s] == incoming_upto(
                    dv,
                    texts[s],
                    dv.len() as int,
                ),
            forall|id: Seq<char>| #[trigger]
                counts@.contains_key(id) <==> has_text(texts.take(i as int), id),
            forall|id: Seq<char>| #[trigger]
                counts@.contains_key(id) ==> counts@[id] == counts_of(dv, id),
        decreases n - i,
    {
        let ghost before = counts@;
        assert(texts[i as int] == issue_ids[i as int]@);
        assert(has_text(texts, texts[i as int]));
        let entry = match slots.get(issue_ids[i].as_str()) {
            Some(s) => {
                let s: usize = *s;
                assert(outgoing[s as int] == outgoing_upto(dv, texts[s as int], dv.len() as int));
                assert(incoming[s as int] == incoming_upto(dv, texts[s as int], dv.len() as int));
                DependencyCounts {
                    dependency_count: count_of(outgoing[s]),
                    dependent_count: count_of(incoming[s]),
                }
            },
            None => DependencyCounts { dependency_count: 0, dependent_count: 0 },
        };
        counts.insert(issue_ids[i].clone(), entry);
        proof {
            assert forall|id: Seq<char>| #[trigger]
                counts@.contains_key(id) <==> has_text(texts.take(i + 1), id) by {
                lemma_has_text_step(texts, id, i as int);
            }
        }
        i = i + 1;
    }
    assert(texts.take(i as int) =~= texts);
    counts
}

} // verus!
