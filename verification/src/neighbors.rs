//! Who the nearest neighbors are, and how they vote.
//!
//! Neighbors are ordered by distance, and at equal distance by the order
//! in which they were stored. The rank of a neighbor is the number of
//! neighbors that come before it in that order; the `k` nearest are those
//! of rank below `k`.

use vstd::prelude::*;
use vstd::relations::injective_on;
use vstd::set_lib::{lemma_int_range, lemma_len_subset, lemma_map_size, lemma_subset_equality, set_int_range};

verus! {

/// Neighbor `j` comes before neighbor `i`: it is nearer, or as near and
/// stored earlier.
pub open spec fn closer(dist: Seq<nat>, j: int, i: int) -> bool {
    dist[j] < dist[i] || (dist[j] == dist[i] && j < i)
}

/// The neighbors that come before neighbor `i`.
pub open spec fn nearer_than(dist: Seq<nat>, i: int) -> Set<int> {
    Set::new(|j: int| 0 <= j < dist.len() && closer(dist, j, i))
}

/// How many neighbors come before neighbor `i`.
pub open spec fn rank(dist: Seq<nat>, i: int) -> nat {
    nearer_than(dist, i).len()
}

/// The neighbors among the `k` nearest that carry `label`.
pub open spec fn electorate(labels: Seq<u8>, dist: Seq<nat>, k: nat, label: u8) -> Set<int> {
    Set::new(|i: int| 0 <= i < dist.len() && rank(dist, i) < k && labels[i] == label)
}

/// The number of votes for `label` among the `k` nearest neighbors.
pub open spec fn votes(labels: Seq<u8>, dist: Seq<nat>, k: nat, label: u8) -> nat {
    electorate(labels, dist, k, label).len()
}

/// `order` tells where each pair of `sorted` stood in `unsorted`, the
/// pairs of `sorted` ascend by distance, and pairs of equal distance
/// stand as they stood in `unsorted`.
pub open spec fn sorts(order: Seq<int>, unsorted: Seq<(u8, u64)>, sorted: Seq<(u8, u64)>) -> bool {
    &&& order.len() == unsorted.len()
    &&& sorted.len() == unsorted.len()
    &&& forall|a: int|
        0 <= a < sorted.len() ==> 0 <= #[trigger] order[a] < unsorted.len() && sorted[a]
            == unsorted[order[a]]
    &&& forall|a: int, b: int|
        0 <= a < b < sorted.len() ==> sorted[a].1 < sorted[b].1 || (sorted[a].1 == sorted[b].1
            && #[trigger] order[a] < #[trigger] order[b])
}

/// `sorted` holds the pairs of `unsorted` by ascending distance, pairs of
/// equal distance in the order they had.
pub open spec fn is_stable_sort(unsorted: Seq<(u8, u64)>, sorted: Seq<(u8, u64)>) -> bool {
    exists|order: Seq<int>| sorts(order, unsorted, sorted)
}

/// Index `j` of the unsorted sequence has a place in the sorted one.
pub open spec fn placed(order: Seq<int>, j: int) -> bool {
    exists|a: int| 0 <= a < order.len() && #[trigger] order[a] == j
}

/// The places before `m` whose pair carries `label`.
pub open spec fn tallied(pairs: Seq<(u8, u64)>, m: int, label: u8) -> Set<int> {
    Set::new(|a: int| 0 <= a < m && pairs[a].0 == label)
}

/// Tallying one more place adds one where its pair carries the label.
pub proof fn lemma_tallied_step(pairs: Seq<(u8, u64)>, m: int, label: u8)
    requires
        0 <= m < pairs.len(),
    ensures
        tallied(pairs, m, label).finite(),
        tallied(pairs, m, label).len() <= m,
        tallied(pairs, m + 1, label).len() == tallied(pairs, m, label).len() + if pairs[m].0
            == label {
            1nat
        } else {
            0nat
        },
{
    let before = tallied(pairs, m, label);
    lemma_int_range(0, m);
    lemma_len_subset(before, set_int_range(0, m));
    if pairs[m].0 == label {
        assert(tallied(pairs, m + 1, label) =~= before.insert(m));
    } else {
        assert(tallied(pairs, m + 1, label) =~= before);
    }
}

/// Every pair of the unsorted sequence has a place in the sorted one.
proof fn lemma_order_onto(order: Seq<int>, unsorted: Seq<(u8, u64)>, sorted: Seq<(u8, u64)>)
    requires
        sorts(order, unsorted, sorted),
    ensures
        forall|j: int| 0 <= j < unsorted.len() ==> #[trigger] placed(order, j),
{
    let n = unsorted.len() as int;
    let places = set_int_range(0, n);
    let at = |a: int| order[a];
    let image = places.map(at);
    lemma_int_range(0, n);
    assert(injective_on(at, places));
    lemma_map_size(places, image, at);
    assert(image.subset_of(places));
    lemma_subset_equality(image, places);
    assert forall|j: int| 0 <= j < n implies #[trigger] placed(order, j) by {
        assert(image.contains(j));
    }
}

/// The pair at place `m` of the sorted sequence has rank `m`.
proof fn lemma_rank_of_place(
    order: Seq<int>,
    unsorted: Seq<(u8, u64)>,
    sorted: Seq<(u8, u64)>,
    m: int,
)
    requires
        sorts(order, unsorted, sorted),
        0 <= m < sorted.len(),
    ensures
        rank(Seq::new(unsorted.len(), |j: int| unsorted[j].1 as nat), order[m]) == m,
{
    let dist = Seq::new(unsorted.len(), |j: int| unsorted[j].1 as nat);
    let before = set_int_range(0, m);
    let at = |a: int| order[a];
    let nearer = nearer_than(dist, order[m]);
    lemma_int_range(0, m);
    lemma_order_onto(order, unsorted, sorted);
    assert(injective_on(at, before));
    assert(before.map(at) =~= nearer) by {
        assert forall|j: int| nearer.contains(j) implies before.map(at).contains(j) by {
            assert(placed(order, j));
            let a = choose|a: int| 0 <= a < order.len() && #[trigger] order[a] == j;
            assert(before.contains(a) && at(a) == j);
        }
    }
    lemma_map_size(before, nearer, at);
}

/// The places among the first `k` of the sorted sequence that carry a
/// label are as many as the votes for it.
pub proof fn lemma_sorted_prefix_votes(
    unsorted: Seq<(u8, u64)>,
    sorted: Seq<(u8, u64)>,
    order: Seq<int>,
    k: nat,
    label: u8,
)
    requires
        sorts(order, unsorted, sorted),
    ensures
        tallied(
            sorted,
            if k < sorted.len() {
                k as int
            } else {
                sorted.len() as int
            },
            label,
        ).len() == votes(
            Seq::new(unsorted.len(), |j: int| unsorted[j].0),
            Seq::new(unsorted.len(), |j: int| unsorted[j].1 as nat),
            k,
            label,
        ),
{
    let n = unsorted.len() as int;
    let labels = Seq::new(unsorted.len(), |j: int| unsorted[j].0);
    let dist = Seq::new(unsorted.len(), |j: int| unsorted[j].1 as nat);
    let cut = if k < sorted.len() {
        k as int
    } else {
        n
    };
    let places = tallied(sorted, cut, label);
    let voters = electorate(labels, dist, k, label);
    let at = |a: int| order[a];
    lemma_int_range(0, cut);
    lemma_len_subset(places, set_int_range(0, cut));
    lemma_order_onto(order, unsorted, sorted);
    assert forall|a: int| 0 <= a < n implies rank(dist, #[trigger] order[a]) == a by {
        lemma_rank_of_place(order, unsorted, sorted, a);
    }
    assert(injective_on(at, places));
    assert(places.map(at) =~= voters) by {
        assert forall|i: int| places.map(at).contains(i) implies voters.contains(i) by {
        }
        assert forall|i: int| voters.contains(i) implies places.map(at).contains(i) by {
            assert(placed(order, i));
            let a = choose|a: int| 0 <= a < order.len() && #[trigger] order[a] == i;
            assert(places.contains(a) && at(a) == i);
        }
    }
    lemma_map_size(places, voters, at);
}

/// Where one neighbor is strictly nearer than every other, it alone is
/// the nearest neighbor, and with one vote its label decides.
pub proof fn lemma_unique_nearest_decides(labels: Seq<u8>, dist: Seq<nat>, j: int)
    requires
        labels.len() == dist.len(),
        0 <= j < dist.len(),
        labels[j] <= 1,
        forall|i: int| 0 <= i < dist.len() && i != j ==> dist[j] < #[trigger] dist[i],
    ensures
        rank(dist, j) == 0,
        (votes(labels, dist, 1, 1) > votes(labels, dist, 1, 0)) == (labels[j] == 1),
{
    assert(nearer_than(dist, j) =~= Set::<int>::empty());
    assert forall|i: int| 0 <= i < dist.len() && i != j implies rank(dist, i) >= 1 by {
        let nearer = nearer_than(dist, i);
        lemma_int_range(0, dist.len() as int);
        lemma_len_subset(nearer, set_int_range(0, dist.len() as int));
        assert(nearer.contains(j));
    }
    let own = labels[j];
    let other = (1 - own) as u8;
    assert(electorate(labels, dist, 1, own) =~= set![j]);
    assert(electorate(labels, dist, 1, other) =~= Set::<int>::empty());
}

} // verus!
