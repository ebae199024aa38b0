//! Ranking: putting selected positions in order of their keys.
//!
//! A ranking lists the selected positions of a list by ascending key; where
//! two keys are equal the lower position comes first. That order is total
//! on positions, so a list has exactly one ranking.

use vstd::prelude::*;

verus! {

/// A key by which positions are ordered: first by `group`, then by `major`,
/// then by `minor`.
#[derive(Debug, Clone, Copy, PartialEq, Eq, Structural)]
pub struct SortKey {
    pub group: i64,
    pub major: i64,
    pub minor: i64,
}

impl SortKey {
    /// Whether this key comes strictly before `other`.
    pub open spec fn spec_before(self, other: SortKey) -> bool {
        self.group < other.group || (self.group == other.group && (self.major < other.major || (
        self.major == other.major && self.minor < other.minor)))
    }

    #[verifier::when_used_as_spec(spec_before)]
    pub fn before(self, other: SortKey) -> (b: bool)
        ensures
            b == self.spec_before(other),
    {
        self.group < other.group || (self.group == other.group && (self.major < other.major || (
        self.major == other.major && self.minor < other.minor)))
    }
}

/// Whether position `p` comes before position `q`: by key, and for equal
/// keys by position.
pub open spec fn precedes(keys: Seq<SortKey>, p: int, q: int) -> bool {
    keys[p].spec_before(keys[q]) || (keys[p] == keys[q] && p < q)
}

/// Whether `order` is the ranking of the selected positions: it holds
/// selected positions only, every selected position, and each before the
/// ones it precedes.
pub open spec fn is_ranking(keys: Seq<SortKey>, selected: Seq<bool>, order: Seq<usize>) -> bool {
    &&& keys.len() == selected.len()
    &&& forall|i: int|
        0 <= i < order.len() ==> (#[trigger] order[i]) < keys.len() && selected[order[i] as int]
    &&& forall|p: int|
        0 <= p < keys.len() && #[trigger] selected[p] ==> exists|i: int|
            0 <= i < order.len() && #[trigger] order[i] == p
    &&& forall|i: int, j: int|
        0 <= i < j < order.len() ==> precedes(keys, #[trigger] order[i] as int, #[trigger] order[j] as int)
}

/// A list has one ranking only.
pub proof fn lemma_ranking_unique(
    keys: Seq<SortKey>,
    selected: Seq<bool>,
    a: Seq<usize>,
    b: Seq<usize>,
)
    requires
        is_ranking(keys, selected, a),
        is_ranking(keys, selected, b),
    ensures
        a == b,
    decreases a.len(),
{
    if a.len() == 0 {
        if b.len() > 0 {
            assert(selected[b[0] as int]);
        }
        assert(a =~= b);
    } else {
        // The last entry of `a` is the greatest selected position, and so is
        // the last entry of `b`.
        let la = a[a.len() - 1];
        assert(selected[la as int]);
        let ib = choose|i: int| 0 <= i < b.len() && #[trigger] b[i] == la;
        let lb = b[b.len() - 1];
        assert(selected[lb as int]);
        let ia = choose|i: int| 0 <= i < a.len() && #[trigger] a[i] == lb;
        if ib < b.len() - 1 {
            assert(precedes(keys, b[ib] as int, b[b.len() - 1] as int));
            if ia < a.len() - 1 {
                assert(precedes(keys, a[ia] as int, a[a.len() - 1] as int));
            }
            assert(false);
        }
        let sel2 = selected.update(la as int, false);
        let a2 = a.drop_last();
        let b2 = b.drop_last();
        assert(is_ranking(keys, sel2, a2)) by {
            assert forall|i: int| 0 <= i < a2.len() implies (#[trigger] a2[i]) < keys.len()
                && sel2[a2[i] as int] by {
                assert(precedes(keys, a[i] as int, a[a.len() - 1] as int));
            }
            assert forall|p: int| 0 <= p < keys.len() && #[trigger] sel2[p] implies exists|i: int|
                0 <= i < a2.len() && #[trigger] a2[i] == p by {
                assert(selected[p]);
                let i = choose|i: int| 0 <= i < a.len() && #[trigger] a[i] == p;
                assert(a2[i] == p);
            }
            assert forall|i: int, j: int| 0 <= i < j < a2.len() implies precedes(
                keys,
                #[trigger] a2[i] as int,
                #[trigger] a2[j] as int,
            ) by {
                assert(precedes(keys, a[i] as int, a[j] as int));
            }
        }
        assert(is_ranking(keys, sel2, b2)) by {
            assert forall|i: int| 0 <= i < b2.len() implies (#[trigger] b2[i]) < keys.len()
                && sel2[b2[i] as int] by {
                assert(precedes(keys, b[i] as int, b[b.len() - 1] as int));
            }
            assert forall|p: int| 0 <= p < keys.len() && #[trigger] sel2[p] implies exists|i: int|
                0 <= i < b2.len() && #[trigger] b2[i] == p by {
                assert(selected[p]);
                let i = choose|i: int| 0 <= i < b.len() && #[trigger] b[i] == p;
                assert(b2[i] == p);
            }
            assert forall|i: int, j: int| 0 <= i < j < b2.len() implies precedes(
                keys,
                #[trigger] b2[i] as int,
                #[trigger] b2[j] as int,
            ) by {
                assert(precedes(keys, b[i] as int, b[j] as int));
            }
        }
        lemma_ranking_unique(keys, sel2, a2, b2);
        assert(a =~= a2.push(la));
        assert(b =~= b2.push(lb));
    }
}

/// Ranks the selected positions by their keys.
pub(crate) fn rank_positions(keys: &Vec<SortKey>, selected: &Vec<bool>) -> (order: Vec<usize>)
    requires
        keys.len() == selected.len(),
    ensures
        is_ranking(keys@, selected@, order@),
{
    let n = keys.len();
    let mut order: Vec<usize> = Vec::new();
    let mut p: usize = 0;
    while p < n
        invariant
            p <= n,
            n == keys.len(),
            n == selected.len(),
            forall|i: int| 0 <= i < order.len() ==> (#[trigger] order[i]) < p && selected[order[i] as int],
            forall|q: int|
                0 <= q < p && #[trigger] selected[q] ==> exists|i: int|
                    0 <= i < order.len() && #[trigger] order[i] == q,
            forall|i: int, j: int|
                0 <= i < j < order.len() ==> precedes(
                    keys@,
                    #[trigger] order[i] as int,
                    #[trigger] order[j] as int,
                ),
        decreases n - p,
    {
        if selected[p] {
            let key = keys[p];
            let mut at: usize = order.len();
            while at > 0 && key.before(keys[order[at - 1]])
                invariant
                    at <= order.len(),
                    n == keys.len(),
                    p < n,
                    key == keys[p as int],
                    forall|i: int| 0 <= i < order.len() ==> (#[trigger] order[i]) < p,
                    forall|j: int|
                        at <= j < order.len() ==> key.spec_before(keys[(#[trigger] order[j]) as int]),
                decreases at,
            {
                at = at - 1;
            }
            let ghost before = order@;
            order.insert(at, p);
            proof {
                assert forall|i: int, j: int| 0 <= i < j < order.len() implies precedes(
                    keys@,
                    #[trigger] order[i] as int,
                    #[trigger] order[j] as int,
                ) by {
                    if j < at {
                        assert(order[i] == before[i] && order[j] == before[j]);
                    } else if j == at {
                        assert(order[i] == before[i]);
                        if i < at - 1 {
                            assert(precedes(keys@, before[i] as int, before[at - 1] as int));
                        }
                        assert(!key.spec_before(keys[before[at - 1] as int]));
                    } else if i < at {
                        assert(order[i] == before[i] && order[j] == before[j - 1]);
                    } else if i == at {
                        assert(order[j] == before[j - 1]);
                    } else {
                        assert(order[i] == before[i - 1] && order[j] == before[j - 1]);
                    }
                }
                assert forall|i: int| 0 <= i < order.len() implies (#[trigger] order[i]) < p + 1
                    && selected[order[i] as int] by {
                    if i < at {
                        assert(order[i] == before[i]);
                    } else if i > at {
                        assert(order[i] == before[i - 1]);
                    }
                }
                assert forall|q: int| 0 <= q < p + 1 && #[trigger] selected[q] implies exists|i: int|
                    0 <= i < order.len() && #[trigger] order[i] == q by {
                    if q == p {
                        assert(order[at as int] == q);
                    } else {
                        let i = choose|i: int| 0 <= i < before.len() && #[trigger] before[i] == q;
                        if i < at {
                            assert(order[i] == q);
                        } else {
                            assert(order[i + 1] == q);
                        }
                    }
                }
            }
        }
        p = p + 1;
    }
    order
}

} // verus!
