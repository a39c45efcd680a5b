//! k-Nearest Neighbor learner.

use crate::bits::{big_from_bit, big_or, big_shl, big_xor, count_ones, differing, one_bits};
use crate::neighbors::{
    is_stable_sort, lemma_sorted_prefix_votes, lemma_tallied_step, lemma_unique_nearest_decides,
    sorts, tallied, votes,
};
use crate::{Instance, Model};
use num_bigint::BigUint;
use vstd::prelude::*;

verus! {

/// The positions of the features that are on: any value above zero
/// counts.
pub open spec fn on_set(features: Seq<u8>) -> Set<nat> {
    Set::new(|p: nat| p < features.len() && features[p as int] > 0)
}

/// The Hamming distance between two bit vectors.
pub open spec fn hamming(a: Set<nat>, b: Set<nat>) -> nat {
    differing(a, b).len()
}

/// Every position of `bits` is below `limit`.
pub open spec fn bounded(bits: Set<nat>, limit: nat) -> bool {
    forall|p: nat| bits.contains(p) ==> p < limit
}

/// Instance with features compiled to a bit vector
/// represented as a big integer. This allows much faster
/// distance computation.
struct BVI {
    label: u8,
    features: BigUint,
}

/// Model info.
pub struct KNN {
    /// Number of neighbors to use in voting.
    k: usize,
    /// Compiled instances to select from for voting.
    instances: Vec<BVI>,
}

impl KNN {
    /// Number of neighbors that vote.
    pub closed spec fn neighbors(&self) -> nat {
        self.k as nat
    }

    /// The label of each stored instance, in training order.
    pub closed spec fn labels(&self) -> Seq<u8> {
        Seq::new(self.instances@.len(), |i: int| self.instances@[i].label)
    }

    /// The positions of the features that are on in each stored
    /// instance, in training order.
    pub closed spec fn stored(&self) -> Seq<Set<nat>> {
        Seq::new(self.instances@.len(), |i: int| one_bits(self.instances@[i].features))
    }

    /// Every stored label is 0 or 1 and every stored bit vector is as
    /// wide as a slice can be long, at most.
    pub closed spec fn wf(&self) -> bool {
        forall|i: int|
            0 <= i < self.instances@.len() ==> (#[trigger] self.instances@[i]).label <= 1
                && bounded(one_bits(self.instances@[i].features), usize::MAX as nat)
    }

    /// The distance from each stored instance to a feature vector.
    pub open spec fn distances(&self, features: Seq<u8>) -> Seq<nat> {
        Seq::new(self.stored().len(), |i: int| hamming(self.stored()[i], on_set(features)))
    }
}

/// A bounded set of positions is finite and no larger than its bound.
pub proof fn lemma_bounded_len(bits: Set<nat>, limit: nat)
    requires
        bounded(bits, limit),
    ensures
        bits.finite(),
        bits.len() <= limit,
{
    let ints = vstd::set_lib::set_int_range(0, limit as int);
    let all = Set::new(|p: nat| p < limit);
    let to_nat = |i: int| i as nat;
    vstd::set_lib::lemma_int_range(0, limit as int);
    assert(all =~= ints.map(to_nat)) by {
        assert forall|p: nat| all.contains(p) implies ints.map(to_nat).contains(p) by {
            assert(ints.contains(p as int) && to_nat(p as int) == p);
        }
    }
    vstd::set_lib::lemma_map_size_bound(ints, all, to_nat);
    vstd::set_lib::lemma_len_subset(bits, all);
}

/// Two bit vectors below a bound differ in no more positions than the
/// bound.
pub proof fn lemma_hamming_bounded(a: Set<nat>, b: Set<nat>, limit: nat)
    requires
        bounded(a, limit),
        bounded(b, limit),
    ensures
        differing(a, b).finite(),
        hamming(a, b) <= limit,
{
    lemma_bounded_len(differing(a, b), limit);
}

/// A feature vector is at distance zero from itself.
pub proof fn lemma_hamming_self(a: Set<nat>)
    ensures
        hamming(a, a) == 0,
{
    assert(differing(a, a) =~= Set::<nat>::empty());
}

/// With one neighbor voting, a stored instance that is strictly nearer to
/// the instance than every other stored one decides with its own label.
/// A stored instance with the same features on is at distance zero.
pub proof fn lemma_nearest_stored_decides(model: KNN, instance: &Instance, j: int)
    requires
        model.wf(),
        model.neighbors() == 1,
        0 <= j < model.stored().len(),
        forall|i: int|
            0 <= i < model.stored().len() && i != j ==> model.distances(instance.features@)[j]
                < #[trigger] model.distances(instance.features@)[i],
    ensures
        model.predicts(instance) == (model.labels()[j] == 1),
        model.stored()[j] == on_set(instance.features@) ==> model.distances(
            instance.features@,
        )[j] == 0,
{
    lemma_unique_nearest_decides(model.labels(), model.distances(instance.features@), j);
    lemma_hamming_self(on_set(instance.features@));
}

/// Compile the feature list to a big integer: bit `i` is set where
/// feature `i` is on.
fn collect_features(features: &[u8]) -> (u: BigUint)
    ensures
        one_bits(u) == on_set(features@),
{
    let mut u = big_from_bit(0);
    let mut i: usize = 0;
    while i < features.len()
        invariant
            i <= features@.len(),
            one_bits(u) == on_set(features@.take(i as int)),
        decreases features@.len() - i,
    {
        let bit: u8 = if features[i] > 0 {
            1
        } else {
            0
        };
        let b = big_from_bit(bit);
        let shifted = big_shl(b, i);
        proof {
            assert(on_set(features@.take(i + 1)) =~= one_bits(u).union(one_bits(shifted)));
        }
        u = big_or(u, shifted);
        i += 1;
    }
    u
}

/// `sort_by_key` of the standard library, keyed by the distance: the
/// pairs come out by ascending distance, and pairs of equal distance keep
/// the order they had.
#[verifier::external_body]
fn sort_by_distance(info: &mut Vec<(u8, u64)>)
    ensures
        is_stable_sort(old(info)@, final(info)@),
{
    info.sort_by_key(|x| x.1);
}

/// Build our model from the training instance data.
pub fn train(k: usize, instances: &[&Instance]) -> (model: Box<KNN>)
    requires
        instances@.len() > 0,
        forall|i: int| 0 <= i < instances@.len() ==> (#[trigger] instances@[i]).label <= 1,
    ensures
        model.wf(),
        model.neighbors() == k,
        model.labels() == Seq::new(instances@.len(), |i: int| instances@[i].label),
        model.stored() == Seq::new(instances@.len(), |i: int| on_set(instances@[i].features@)),
{
    let mut compiled: Vec<BVI> = Vec::new();
    let mut n: usize = 0;
    while n < instances.len()
        invariant
            n <= instances@.len(),
            compiled@.len() == n,
            forall|i: int| 0 <= i < instances@.len() ==> (#[trigger] instances@[i]).label <= 1,
            forall|i: int|
                0 <= i < n ==> (#[trigger] compiled@[i]).label == instances@[i].label && one_bits(
                    compiled@[i].features,
                ) == on_set(instances@[i].features@),
            forall|i: int|
                0 <= i < n ==> bounded(one_bits((#[trigger] compiled@[i]).features), usize::MAX as nat),
        decreases instances@.len() - n,
    {
        let i = instances[n];
        proof {
            assert(i.features@.len() == i.features.len());
        }
        compiled.push(BVI { label: i.label, features: collect_features(i.features.as_slice()) });
        n += 1;
    }
    let model = KNN { k, instances: compiled };
    proof {
        assert(model.stored() =~= Seq::new(
            instances@.len(),
            |i: int| on_set(instances@[i].features@),
        ));
    }
    Box::new(model)
}

impl Model for KNN {
    /// A well-formed model classifies every instance.
    open spec fn accepts(&self, instance: &Instance) -> bool {
        self.wf()
    }

    /// Label 1 wins where, among the `k` stored instances nearest to the
    /// instance, more carry label 1 than label 0. Stored instances at the
    /// same distance count as nearer the earlier they were stored.
    open spec fn predicts(&self, instance: &Instance) -> bool {
        let dist = self.distances(instance.features@);
        votes(self.labels(), dist, self.neighbors(), 1) > votes(
            self.labels(),
            dist,
            self.neighbors(),
            0,
        )
    }

    fn classify(&self, instance: &Instance) -> (label: bool) {
        // Compile test instance.
        let query = collect_features(instance.features.as_slice());
        let ghost labels = self.labels();
        let ghost dist = self.distances(instance.features@);

        // Sort instance labels by increasing instance
        // distance.
        let mut info: Vec<(u8, u64)> = Vec::new();
        let mut i: usize = 0;
        while i < self.instances.len()
            invariant
                i <= self.instances@.len(),
                self.wf(),
                labels == self.labels(),
                dist == self.distances(instance.features@),
                one_bits(query) == on_set(instance.features@),
                info@.len() == i,
                forall|j: int|
                    0 <= j < i ==> (#[trigger] info@[j]).0 == labels[j] && info@[j].1 == dist[j],
            decreases self.instances@.len() - i,
        {
            let neighbor = &self.instances[i];
            let diff = big_xor(&neighbor.features, &query);
            proof {
                assert(instance.features@.len() == instance.features.len());
                lemma_hamming_bounded(
                    one_bits(neighbor.features),
                    one_bits(query),
                    usize::MAX as nat,
                );
            }
            let h = count_ones(diff);
            info.push((neighbor.label, h));
            i += 1;
        }
        let ghost unsorted = info@;
        sort_by_distance(&mut info);
        let ghost order = choose|p: Seq<int>| sorts(p, unsorted, info@);

        // For each label, compute the counts among the *k*
        // nearest neighbors.
        let mut lweights: [usize; 2] = [0, 0];
        let mut m: usize = 0;
        proof {
            assert(tallied(info@, 0, 0) =~= Set::<int>::empty());
            assert(tallied(info@, 0, 1) =~= Set::<int>::empty());
        }
        while m < info.len() && m < self.k
            invariant
                m <= info@.len(),
                m <= self.k,
                sorts(order, unsorted, info@),
                forall|j: int| 0 <= j < unsorted.len() ==> (#[trigger] unsorted[j]).0 <= 1,
                lweights[0] == tallied(info@, m as int, 0).len(),
                lweights[1] == tallied(info@, m as int, 1).len(),
                lweights[0] + lweights[1] == m,
            decreases info@.len() - m,
        {
            let c = info[m].0;
            proof {
                assert(info@[m as int] == unsorted[order[m as int]]);
                lemma_tallied_step(info@, m as int, 0);
                lemma_tallied_step(info@, m as int, 1);
            }
            lweights[c as usize] += 1;
            m += 1;
        }
        proof {
            assert(labels =~= Seq::new(unsorted.len(), |j: int| unsorted[j].0));
            assert(dist =~= Seq::new(unsorted.len(), |j: int| unsorted[j].1 as nat));
            lemma_sorted_prefix_votes(unsorted, info@, order, self.k as nat, 0);
            lemma_sorted_prefix_votes(unsorted, info@, order, self.k as nat, 1);
        }

        // Whichever count is larger wins.
        lweights[1] > lweights[0]
    }
}

} // verus!
