//! Naive Bayesian learner.
//!
//! Training counts; the counts are integers and are exact. The score of
//! an instance under a label is a real number made from those counts. It
//! is computed by a measure that the caller hands to `train`: a function
//! from the counts to an unsigned score. Scores are compared as integers,
//! so the measure may use any encoding that keeps the order of its
//! numbers.

use crate::{is_corpus, Instance, Model};
use vstd::prelude::*;

verus! {

/// Whether a sample carries `label`.
pub open spec fn has_label<'a>(label: u8) -> spec_fn(&'a Instance) -> bool {
    |s: &Instance| s.label == label
}

/// Whether a sample carries `label` and has feature `f` at `value`.
pub open spec fn has_evidence<'a>(label: u8, f: int, value: u8) -> spec_fn(&'a Instance) -> bool {
    |s: &Instance| s.label == label && s.features@[f] == value
}

/// The number of samples that carry `label`.
pub open spec fn labelled(samples: Seq<&Instance>, label: u8) -> nat {
    samples.filter(has_label(label)).len()
}

/// The number of samples that carry `label` and whose feature `f` has the
/// value `value`.
pub open spec fn occurrences(samples: Seq<&Instance>, label: u8, f: int, value: u8) -> nat {
    samples.filter(has_evidence(label, f, value)).len()
}

/// Every sample is binary in its features.
pub open spec fn all_binary(samples: Seq<&Instance>) -> bool {
    forall|i: int| 0 <= i < samples.len() ==> (#[trigger] samples[i]).binary()
}

/// A measure over the counts behind a score can be called on any counts
/// and gives the same score whenever it is given the same counts.
pub open spec fn is_evidence_measure<S: Fn(Vec<usize>, usize, usize) -> u64>(s: S) -> bool {
    &&& forall|c: Vec<usize>, t: usize, n: usize| #[trigger] s.requires((c, t, n))
    &&& forall|c: Vec<usize>, d: Vec<usize>, t: usize, n: usize, x: u64, y: u64|
        c@ == d@ && #[trigger] s.ensures((c, t, n), x) && #[trigger] s.ensures((d, t, n), y) ==> x
            == y
}

/// The measure can give the score `x` to the counts `c`, a label's total
/// `t` and the size `n` of the training set.
pub open spec fn gives<S: Fn(Vec<usize>, usize, usize) -> u64>(
    s: S,
    c: Seq<usize>,
    t: usize,
    n: usize,
    x: u64,
) -> bool {
    exists|v: Vec<usize>| v@ == c && #[trigger] s.ensures((v, t, n), x)
}

/// The score that a measure gives the counts `c`, a label's total `t` and
/// the size `n` of the training set.
pub open spec fn evidence_scores<S: Fn(Vec<usize>, usize, usize) -> u64>(s: S) -> spec_fn(
    Seq<usize>,
    usize,
    usize,
) -> u64 {
    |c: Seq<usize>, t: usize, n: usize| choose|x: u64| gives(s, c, t, n, x)
}

/// Model info.
pub struct NBayes<S> {
    /// Size of training set.
    ntraining: usize,
    /// Number of instances negative / positive for
    /// hypothesis.
    ns_h: [usize; 2],
    /// Number of instances of evidence for a hypothesis
    /// based on a given feature and its label. Access as
    /// `n_eh[label][feature][feature_label]`.
    n_eh: Vec<Vec<[usize; 2]>>,
    /// The measure that turns counts into a score.
    score: S,
}

impl<S: Fn(Vec<usize>, usize, usize) -> u64> NBayes<S> {
    /// The table has a row of counts for each of the two labels, and the
    /// rows are equally long.
    pub closed spec fn wf(&self) -> bool {
        &&& self.n_eh@.len() == 2
        &&& self.n_eh@[0]@.len() == self.n_eh@[1]@.len()
    }

    /// Size of training set.
    pub closed spec fn ntraining(&self) -> nat {
        self.ntraining as nat
    }

    /// Number of features that the model was trained on.
    pub closed spec fn width(&self) -> nat {
        self.n_eh@[0]@.len()
    }

    /// Number of training instances that carry `label`.
    pub closed spec fn ns_h(&self, label: u8) -> nat {
        self.ns_h@[label as int] as nat
    }

    /// Number of training instances that carry `label` and whose feature
    /// `f` has the value `value`.
    pub closed spec fn n_eh(&self, label: u8, f: int, value: u8) -> nat {
        self.n_eh@[label as int]@[f]@[value as int] as nat
    }

    /// The measure that the model scores with.
    pub closed spec fn scorer(&self) -> S {
        self.score
    }

    /// The counts that the score of a feature vector under `label` is
    /// made of: for each feature, the number of training instances that
    /// carry the label and have that feature at the vector's value.
    pub open spec fn evidence_of(&self, features: Seq<u8>, label: u8) -> Seq<usize> {
        Seq::new(features.len(), |i: int| self.n_eh(label, i, features[i]) as usize)
    }

    /// The score of a feature vector under `label`: what the measure
    /// makes of the vector's evidence, the label's total and the size of
    /// the training set.
    pub open spec fn label_score(&self, features: Seq<u8>, label: u8) -> u64 {
        evidence_scores(self.scorer())(
            self.evidence_of(features, label),
            self.ns_h(label) as usize,
            self.ntraining() as usize,
        )
    }

    /// The model holds the counts of `samples`.
    pub open spec fn counts(&self, samples: Seq<&Instance>) -> bool {
        &&& self.wf()
        &&& self.ntraining() == samples.len()
        &&& self.width() == samples[0].features@.len()
        &&& forall|label: u8| label <= 1 ==> #[trigger] self.ns_h(label) == labelled(samples, label)
        &&& forall|label: u8, f: int, value: u8|
            label <= 1 && 0 <= f < self.width() && value <= 1 ==> #[trigger] self.n_eh(
                label,
                f,
                value,
            ) == occurrences(samples, label, f, value)
    }

    /// Size of training set.
    pub fn training_size(&self) -> (n: usize)
        ensures
            n == self.ntraining(),
    {
        self.ntraining
    }

    /// Number of training instances that carry `label`.
    pub fn label_total(&self, label: u8) -> (n: usize)
        requires
            label <= 1,
        ensures
            n == self.ns_h(label),
    {
        self.ns_h[label as usize]
    }

    /// The counts that the score of `instance` under `label` is made of:
    /// for each feature of the instance, the number of training instances
    /// that carry the label and have that feature at the instance's value.
    pub fn evidence(&self, instance: &Instance, label: u8) -> (counts: Vec<usize>)
        requires
            self.wf(),
            label <= 1,
            instance.features@.len() <= self.width(),
            instance.binary(),
        ensures
            counts@ == self.evidence_of(instance.features@, label),
    {
        let mut counts: Vec<usize> = Vec::new();
        let mut i: usize = 0;
        while i < instance.features.len()
            invariant
                self.wf(),
                label <= 1,
                instance.features@.len() <= self.width(),
                instance.binary(),
                i <= instance.features@.len(),
                counts@.len() == i,
                forall|j: int|
                    0 <= j < i ==> #[trigger] counts@[j] == self.n_eh(
                        label,
                        j,
                        instance.features@[j],
                    ),
            decreases instance.features@.len() - i,
        {
            let f = instance.features[i];
            let count = self.n_eh[label as usize][i][f as usize];
            counts.push(count);
            i += 1;
        }
        counts
    }

    /// Return a "likelihood" score for the given instance
    /// having the given label, based on our model.
    pub fn score_label(&self, instance: &Instance, label: u8) -> (score: u64)
        requires
            self.wf(),
            is_evidence_measure(self.scorer()),
            label <= 1,
            instance.features@.len() <= self.width(),
            instance.binary(),
        ensures
            score == self.label_score(instance.features@, label),
            gives(
                self.scorer(),
                self.evidence_of(instance.features@, label),
                self.ns_h(label) as usize,
                self.ntraining() as usize,
                score,
            ),
    {
        let counts = self.evidence(instance, label);
        let ghost evidence = counts;
        let score = (self.score)(counts, self.ns_h[label as usize], self.ntraining);
        proof {
            let t = self.ns_h(label) as usize;
            let n = self.ntraining() as usize;
            assert(gives(self.scorer(), evidence@, t, n, score));
        }
        score
    }
}

/// Build our model from the training instance data. The model scores
/// with `score`, which is given the evidence of an instance under a
/// label, the number of training instances of that label, and the size of
/// the training set.
pub fn train<S: Fn(Vec<usize>, usize, usize) -> u64>(samples: &[&Instance], score: S) -> (model:
    Box<NBayes<S>>)
    requires
        samples@.len() > 0,
        is_corpus(samples@, samples@[0].features@.len()),
        all_binary(samples@),
    ensures
        model.counts(samples@),
        model.scorer() == score,
        forall|i: &Instance| #[trigger]
            model.accepts(i) <==> is_evidence_measure(score) && i.features@.len()
                <= samples@[0].features@.len() && i.binary(),
{
    let ntraining = samples.len();
    let nfeatures = samples[0].features.len();

    let mut n_nh: usize = 0;
    let mut k: usize = 0;
    while k < ntraining
        invariant
            ntraining == samples@.len(),
            k <= ntraining,
            n_nh == labelled(samples@.take(k as int), 0),
            n_nh <= k,
        decreases ntraining - k,
    {
        proof {
            lemma_labelled_step(samples@, k as int, 0);
        }
        if samples[k].label == 0 {
            n_nh += 1;
        }
        k += 1;
    }
    let n_h = ntraining - n_nh;
    let ns_h = [n_nh, n_h];
    proof {
        assert(samples@.take(ntraining as int) == samples@);
        lemma_labels_partition(samples@);
    }

    let mut n_eh: Vec<Vec<[usize; 2]>> = Vec::new();
    let mut label: u8 = 0;
    while label < 2
        invariant
            label <= 2,
            ntraining == samples@.len(),
            ntraining > 0,
            nfeatures == samples@[0].features@.len(),
            is_corpus(samples@, nfeatures as nat),
            all_binary(samples@),
            n_eh@.len() == label,
            forall|l: int| 0 <= l < label ==> (#[trigger] n_eh@[l])@.len() == nfeatures,
            forall|l: u8, f: int, value: u8|
                l < label && 0 <= f < nfeatures && value <= 1 ==> #[trigger] n_eh@[l as int]@[f]@[value as int]
                    == occurrences(samples@, l, f, value),
        decreases 2 - label,
    {
        let mut lcounts: Vec<[usize; 2]> = Vec::with_capacity(nfeatures);
        let mut f: usize = 0;
        while f < nfeatures
            invariant
                label < 2,
                f <= nfeatures,
                ntraining == samples@.len(),
                is_corpus(samples@, nfeatures as nat),
                all_binary(samples@),
                lcounts@.len() == f,
                forall|g: int, value: u8|
                    0 <= g < f && value <= 1 ==> #[trigger] lcounts@[g]@[value as int]
                        == occurrences(samples@, label, g, value),
            decreases nfeatures - f,
        {
            let mut counts = [0usize, 0usize];
            let mut k: usize = 0;
            proof {
                reveal(Seq::filter);
            }
            while k < ntraining
                invariant
                    label < 2,
                    f < nfeatures,
                    ntraining == samples@.len(),
                    k <= ntraining,
                    is_corpus(samples@, nfeatures as nat),
                    all_binary(samples@),
                    counts@[0] == occurrences(samples@.take(k as int), label, f as int, 0),
                    counts@[1] == occurrences(samples@.take(k as int), label, f as int, 1),
                    counts@[0] + counts@[1] <= k,
                decreases ntraining - k,
            {
                let inst = samples[k];
                proof {
                    lemma_occurrences_step(samples@, k as int, label, f as int, 0);
                    lemma_occurrences_step(samples@, k as int, label, f as int, 1);
                }
                if inst.label == label {
                    counts[inst.features[f] as usize] += 1;
                }
                k += 1;
            }
            proof {
                assert(samples@.take(ntraining as int) == samples@);
            }
            lcounts.push(counts);
            f += 1;
        }
        n_eh.push(lcounts);
        label += 1;
    }
    Box::new(NBayes { ntraining, ns_h, n_eh, score })
}

impl<S: Fn(Vec<usize>, usize, usize) -> u64> Model for NBayes<S> {
    /// The instance has no more features than the model was trained on,
    /// and each is 0 or 1.
    open spec fn accepts(&self, instance: &Instance) -> bool {
        &&& self.wf()
        &&& is_evidence_measure(self.scorer())
        &&& instance.features@.len() <= self.width()
        &&& instance.binary()
    }

    /// Label 1 wins where its score is strictly the greater.
    open spec fn predicts(&self, instance: &Instance) -> bool {
        self.label_score(instance.features@, 1) > self.label_score(instance.features@, 0)
    }

    fn classify(&self, inst: &Instance) -> (label: bool)
        ensures
            label == (self.label_score(inst.features@, 1) > self.label_score(inst.features@, 0)),
            forall|l: u8|
                l <= 1 ==> gives(
                    self.scorer(),
                    self.evidence_of(inst.features@, l),
                    self.ns_h(l) as usize,
                    self.ntraining() as usize,
                    #[trigger] self.label_score(inst.features@, l),
                ),
    {
        let s_neg = self.score_label(inst, 0);
        let s_pos = self.score_label(inst, 1);
        s_pos > s_neg
    }
}

/// Where the samples of `swapped` are those of `samples` with the labels
/// 0 and 1 exchanged, every count of `swapped` under one label is the
/// count of `samples` under the other label.
pub proof fn lemma_swapped_labels_swap_counts(
    samples: Seq<&Instance>,
    swapped: Seq<&Instance>,
    label: u8,
    f: int,
    value: u8,
)
    requires
        label <= 1,
        samples.len() == swapped.len(),
        forall|i: int|
            0 <= i < samples.len() ==> (#[trigger] samples[i]).label <= 1 && swapped[i].label == 1
                - samples[i].label && swapped[i].features@ == samples[i].features@,
    ensures
        labelled(swapped, label) == labelled(samples, (1 - label) as u8),
        occurrences(swapped, label, f, value) == occurrences(samples, (1 - label) as u8, f, value),
    decreases samples.len(),
{
    reveal(Seq::filter);
    if samples.len() > 0 {
        let other = (1 - label) as u8;
        lemma_swapped_labels_swap_counts(samples.drop_last(), swapped.drop_last(), label, f, value);
    }
}

/// Two models, one trained on samples and one on the same samples with
/// the labels 0 and 1 exchanged, hold each other's counts with the labels
/// exchanged.
pub proof fn lemma_swapped_training_swaps_model<S: Fn(Vec<usize>, usize, usize) -> u64>(
    model: NBayes<S>,
    mirror: NBayes<S>,
    samples: Seq<&Instance>,
    swapped: Seq<&Instance>,
)
    requires
        samples.len() > 0,
        samples.len() == swapped.len(),
        forall|i: int|
            0 <= i < samples.len() ==> (#[trigger] samples[i]).label <= 1 && swapped[i].label == 1
                - samples[i].label && swapped[i].features@ == samples[i].features@,
        model.counts(samples),
        mirror.counts(swapped),
    ensures
        mirror.ntraining() == model.ntraining(),
        mirror.width() == model.width(),
        forall|label: u8|
            label <= 1 ==> #[trigger] mirror.ns_h(label) == model.ns_h((1 - label) as u8),
        forall|label: u8, f: int, value: u8|
            label <= 1 && 0 <= f < model.width() && value <= 1 ==> #[trigger] mirror.n_eh(
                label,
                f,
                value,
            ) == model.n_eh((1 - label) as u8, f, value),
{
    assert forall|label: u8| label <= 1 implies #[trigger] mirror.ns_h(label) == model.ns_h(
        (1 - label) as u8,
    ) by {
        lemma_swapped_labels_swap_counts(samples, swapped, label, 0, 0);
    }
    assert forall|label: u8, f: int, value: u8|
        label <= 1 && 0 <= f < model.width() && value <= 1 implies #[trigger] mirror.n_eh(
        label,
        f,
        value,
    ) == model.n_eh((1 - label) as u8, f, value) by {
        lemma_swapped_labels_swap_counts(samples, swapped, label, f, value);
    }
}

/// Two models that score alike, one trained on samples and one on the
/// same samples with the labels 0 and 1 exchanged, predict the opposite of
/// each other for every instance whose two scores differ.
pub proof fn lemma_swapped_labels_swap_predictions<S: Fn(Vec<usize>, usize, usize) -> u64>(
    model: NBayes<S>,
    mirror: NBayes<S>,
    samples: Seq<&Instance>,
    swapped: Seq<&Instance>,
    instance: &Instance,
)
    requires
        samples.len() > 0,
        samples.len() == swapped.len(),
        forall|i: int|
            0 <= i < samples.len() ==> (#[trigger] samples[i]).label <= 1 && swapped[i].label == 1
                - samples[i].label && swapped[i].features@ == samples[i].features@,
        model.counts(samples),
        mirror.counts(swapped),
        mirror.scorer() == model.scorer(),
        instance.features@.len() <= model.width(),
        instance.binary(),
        model.label_score(instance.features@, 1) != model.label_score(instance.features@, 0),
    ensures
        mirror.predicts(instance) == !model.predicts(instance),
{
    let features = instance.features@;
    lemma_swapped_training_swaps_model(model, mirror, samples, swapped);
    assert forall|label: u8| label <= 1 implies mirror.evidence_of(features, label)
        =~= model.evidence_of(features, (1 - label) as u8) by {}
}

/// Taking one more sample adds one to the count of a label where that
/// sample carries it.
proof fn lemma_labelled_step(samples: Seq<&Instance>, k: int, label: u8)
    requires
        0 <= k < samples.len(),
    ensures
        labelled(samples.take(k + 1), label) == labelled(samples.take(k), label) + if samples[k].label
            == label {
            1nat
        } else {
            0nat
        },
{
    assert(samples.take(k + 1) == samples.take(k).push(samples[k]));
    samples.take(k).lemma_filter_push(samples[k], has_label(label));
}

/// Taking one more sample adds one to the count of a label and a feature
/// value where that sample carries both.
proof fn lemma_occurrences_step(samples: Seq<&Instance>, k: int, label: u8, f: int, value: u8)
    requires
        0 <= k < samples.len(),
    ensures
        occurrences(samples.take(k + 1), label, f, value) == occurrences(
            samples.take(k),
            label,
            f,
            value,
        ) + if samples[k].label == label && samples[k].features@[f] == value {
            1nat
        } else {
            0nat
        },
{
    assert(samples.take(k + 1) == samples.take(k).push(samples[k]));
    samples.take(k).lemma_filter_push(samples[k], has_evidence(label, f, value));
}

/// Where every label is 0 or 1, the samples of label 0 and those of label
/// 1 are all the samples.
proof fn lemma_labels_partition(samples: Seq<&Instance>)
    requires
        forall|i: int| 0 <= i < samples.len() ==> (#[trigger] samples[i]).label <= 1,
    ensures
        labelled(samples, 0) + labelled(samples, 1) == samples.len(),
    decreases samples.len(),
{
    reveal(Seq::filter);
    if samples.len() > 0 {
        lemma_labels_partition(samples.drop_last());
    }
}

} // verus!
