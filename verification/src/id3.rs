//! ID3 Decision Tree learner.
//!
//! The tree is grown by integer logic alone. The two real-valued
//! measures that steer it, the information gain of a split and the
//! chi-square statistic of a node, are computed by the caller: each is
//! handed in as a function from label counts to an unsigned score, and
//! scores are compared as integers. Any encoding that keeps the order of
//! the caller's numbers will do, as long as a gain that is not positive
//! is encoded as zero.

use crate::{is_corpus, Instance, Model};
use std::collections::HashSet;
use vstd::prelude::*;

verus! {

broadcast use vstd::std_specs::hash::group_hash_axioms;

/// A decision tree over binary features.
pub enum DTree {
    /// Test feature `f`: instances that have it go to `pos`, the others
    /// to `neg`.
    Branch { f: usize, pos: Box<DTree>, neg: Box<DTree> },
    /// Predict this label.
    Label(bool),
}

/// Whether an instance carries a positive label.
pub open spec fn is_positive<'a>() -> spec_fn(&'a Instance) -> bool {
    |i: &Instance| i.label > 0
}

/// Whether an instance has feature `f`.
pub open spec fn has_feature<'a>(f: int) -> spec_fn(&'a Instance) -> bool {
    |i: &Instance| i.on(f)
}

/// Whether an instance lacks feature `f`.
pub open spec fn lacks_feature<'a>(f: int) -> spec_fn(&'a Instance) -> bool {
    |i: &Instance| !i.on(f)
}

/// The number of instances whose label is positive.
pub open spec fn positives(insts: Seq<&Instance>) -> nat {
    insts.filter(is_positive()).len()
}

/// The label counts of a set of instances: positive first, then negative.
pub open spec fn tally(insts: Seq<&Instance>) -> (usize, usize) {
    (positives(insts) as usize, (insts.len() - positives(insts)) as usize)
}

/// The label a leaf over these instances predicts: positive only where
/// the positive instances outnumber the negative ones.
pub open spec fn majority(insts: Seq<&Instance>) -> bool {
    positives(insts) > insts.len() - positives(insts)
}

/// The instances that have feature `f`, in their order.
pub open spec fn taken(insts: Seq<&Instance>, f: int) -> Seq<&Instance> {
    insts.filter(has_feature(f))
}

/// The instances that lack feature `f`, in their order.
pub open spec fn not_taken(insts: Seq<&Instance>, f: int) -> Seq<&Instance> {
    insts.filter(lacks_feature(f))
}

/// A measure over one pair of label counts can be called on any counts
/// and gives the same score whenever it is given the same counts.
pub open spec fn is_node_measure<C: Fn(usize, usize) -> u64>(c: C) -> bool {
    &&& forall|p: usize, n: usize| #[trigger] c.requires((p, n))
    &&& forall|p: usize, n: usize, x: u64, y: u64|
        #[trigger] c.ensures((p, n), x) && #[trigger] c.ensures((p, n), y) ==> x == y
}

/// A measure over the label counts of the two sides of a split can be
/// called on any counts and gives the same score whenever it is given the
/// same counts.
pub open spec fn is_split_measure<G: Fn((usize, usize), (usize, usize)) -> u64>(g: G) -> bool {
    &&& forall|a: (usize, usize), b: (usize, usize)| #[trigger] g.requires((a, b))
    &&& forall|a: (usize, usize), b: (usize, usize), x: u64, y: u64|
        #[trigger] g.ensures((a, b), x) && #[trigger] g.ensures((a, b), y) ==> x == y
}

/// The score that a node measure gives each pair of counts.
pub open spec fn node_scores<C: Fn(usize, usize) -> u64>(c: C) -> spec_fn(usize, usize) -> u64 {
    |p: usize, n: usize| choose|x: u64| c.ensures((p, n), x)
}

/// The score that a split measure gives each two pairs of counts.
pub open spec fn split_scores<G: Fn((usize, usize), (usize, usize)) -> u64>(g: G) -> spec_fn(
    (usize, usize),
    (usize, usize),
) -> u64 {
    |a: (usize, usize), b: (usize, usize)| choose|x: u64| g.ensures((a, b), x)
}

/// The gain of splitting `insts` on feature `f`.
pub open spec fn gain_at(
    insts: Seq<&Instance>,
    gain: spec_fn((usize, usize), (usize, usize)) -> u64,
    f: usize,
) -> u64 {
    gain(tally(taken(insts, f as int)), tally(not_taken(insts, f as int)))
}

/// A feature is a candidate at a node when the path has not used it, it
/// leaves instances on both sides, and its gain is positive.
pub open spec fn eligible(
    insts: Seq<&Instance>,
    used: Set<usize>,
    gain: spec_fn((usize, usize), (usize, usize)) -> u64,
    f: usize,
) -> bool {
    &&& !used.contains(f)
    &&& taken(insts, f as int).len() > 0
    &&& not_taken(insts, f as int).len() > 0
    &&& gain_at(insts, gain, f) > 0
}

/// Feature `f` is the candidate of greatest gain, and the lowest such
/// feature where several share that gain.
pub open spec fn is_best(
    insts: Seq<&Instance>,
    width: nat,
    used: Set<usize>,
    gain: spec_fn((usize, usize), (usize, usize)) -> u64,
    f: usize,
) -> bool {
    &&& f < width
    &&& eligible(insts, used, gain, f)
    &&& forall|g: usize|
        g < width && #[trigger] eligible(insts, used, gain, g) ==> {
            &&& gain_at(insts, gain, g) <= gain_at(insts, gain, f)
            &&& g < f ==> gain_at(insts, gain, g) < gain_at(insts, gain, f)
        }
}

/// The feature to split on, if any feature is a candidate.
pub open spec fn best_feature(
    insts: Seq<&Instance>,
    width: nat,
    used: Set<usize>,
    gain: spec_fn((usize, usize), (usize, usize)) -> u64,
) -> Option<usize> {
    if exists|f: usize| is_best(insts, width, used, gain, f) {
        Some(choose|f: usize| is_best(insts, width, used, gain, f))
    } else {
        None
    }
}

/// The tree that ID3 grows over `insts`, whose instances have `width`
/// features, below a path that has used the features in `used`.
///
/// A node becomes a leaf with the majority label when every feature is
/// used, when `min_chisquare` is given and the node's chi-square score is
/// below it, when no feature is a candidate, or when `min_gain` is given
/// and the best gain is below it. Otherwise the node splits on the best
/// feature and both sides are grown with that feature used.
pub open spec fn induce(
    insts: Seq<&Instance>,
    width: nat,
    used: Set<usize>,
    gain: spec_fn((usize, usize), (usize, usize)) -> u64,
    chi_square: spec_fn(usize, usize) -> u64,
    min_gain: Option<u64>,
    min_chisquare: Option<u64>,
) -> DTree
    decreases width - used.len(),
    when used.finite()
{
    let leaf = DTree::Label(majority(insts));
    if used.len() >= width {
        leaf
    } else if min_chisquare is Some && chi_square(tally(insts).0, tally(insts).1)
        < min_chisquare->0 {
        leaf
    } else {
        match best_feature(insts, width, used, gain) {
            None => leaf,
            Some(f) => if min_gain is Some && gain_at(insts, gain, f) < min_gain->0 {
                leaf
            } else {
                DTree::Branch {
                    f,
                    pos: Box::new(
                        induce(
                            taken(insts, f as int),
                            width,
                            used.insert(f),
                            gain,
                            chi_square,
                            min_gain,
                            min_chisquare,
                        ),
                    ),
                    neg: Box::new(
                        induce(
                            not_taken(insts, f as int),
                            width,
                            used.insert(f),
                            gain,
                            chi_square,
                            min_gain,
                            min_chisquare,
                        ),
                    ),
                }
            },
        }
    }
}

/// Count the positive and the negative instances.
pub fn count_labels(insts: &[&Instance]) -> (counts: (usize, usize))
    requires
        forall|i: int| 0 <= i < insts@.len() ==> (#[trigger] insts@[i]).label <= 1,
    ensures
        counts == tally(insts@),
        counts.0 + counts.1 == insts@.len(),
{
    let ninsts = insts.len();

    let mut np: usize = 0;
    let mut k: usize = 0;
    while k < ninsts
        invariant
            ninsts == insts@.len(),
            k <= ninsts,
            np == positives(insts@.take(k as int)),
            np <= k,
            forall|i: int| 0 <= i < insts@.len() ==> (#[trigger] insts@[i]).label <= 1,
        decreases ninsts - k,
    {
        proof {
            let head = insts@.take(k as int);
            assert(insts@.take(k + 1) == head.push(insts@[k as int]));
            head.lemma_filter_push(insts@[k as int], is_positive());
        }
        np += insts[k].label as usize;
        k += 1;
    }
    assert(insts@.take(ninsts as int) == insts@);
    (np, ninsts - np)
}

/// Part the instances into those that have feature `f` and those that
/// lack it.
pub fn split<'a>(insts: &[&'a Instance], f: usize) -> (sides: (
    Vec<&'a Instance>,
    Vec<&'a Instance>,
))
    requires
        forall|i: int| 0 <= i < insts@.len() ==> f < (#[trigger] insts@[i]).features@.len(),
    ensures
        sides.0@ == taken(insts@, f as int),
        sides.1@ == not_taken(insts@, f as int),
{
    let mut pos: Vec<&'a Instance> = Vec::new();
    let mut neg: Vec<&'a Instance> = Vec::new();
    let mut k: usize = 0;
    while k < insts.len()
        invariant
            k <= insts@.len(),
            pos@ == taken(insts@.take(k as int), f as int),
            neg@ == not_taken(insts@.take(k as int), f as int),
            forall|i: int| 0 <= i < insts@.len() ==> f < (#[trigger] insts@[i]).features@.len(),
        decreases insts@.len() - k,
    {
        proof {
            let head = insts@.take(k as int);
            assert(insts@.take(k + 1) == head.push(insts@[k as int]));
            head.lemma_filter_push(insts@[k as int], has_feature(f as int));
            head.lemma_filter_push(insts@[k as int], lacks_feature(f as int));
        }
        let i = insts[k];
        if i.features[f] > 0 {
            pos.push(i);
        } else {
            neg.push(i);
        }
        k += 1;
    }
    assert(insts@.take(insts@.len() as int) == insts@);
    (pos, neg)
}

impl DTree {
    /// Every feature that the tree tests is below `width`.
    pub open spec fn fits(self, width: nat) -> bool
        decreases self,
    {
        match self {
            DTree::Label(_) => true,
            DTree::Branch { f, pos, neg } => f < width && pos.fits(width) && neg.fits(width),
        }
    }

    /// No path of the tree tests a feature of `used`, nor any feature
    /// twice.
    pub open spec fn fresh(self, used: Set<usize>) -> bool
        decreases self,
    {
        match self {
            DTree::Label(_) => true,
            DTree::Branch { f, pos, neg } => {
                &&& !used.contains(f)
                &&& pos.fresh(used.insert(f))
                &&& neg.fresh(used.insert(f))
            },
        }
    }

    /// The number of branches on the longest path of the tree.
    pub open spec fn height(self) -> nat
        decreases self,
    {
        match self {
            DTree::Label(_) => 0,
            DTree::Branch { f, pos, neg } => 1 + if pos.height() >= neg.height() {
                pos.height()
            } else {
                neg.height()
            },
        }
    }

    /// A tree that fits a width fits every greater width.
    pub proof fn lemma_fits_wider(self, width: nat, wider: nat)
        requires
            self.fits(width),
            width <= wider,
        ensures
            self.fits(wider),
        decreases self,
    {
        match self {
            DTree::Label(_) => {},
            DTree::Branch { f, pos, neg } => {
                pos.lemma_fits_wider(width, wider);
                neg.lemma_fits_wider(width, wider);
            },
        }
    }

    /// The label at the end of the path that a feature vector follows.
    pub open spec fn predict(self, features: Seq<u8>) -> bool
        decreases self,
    {
        match self {
            DTree::Label(l) => l,
            DTree::Branch { f, pos, neg } => if features[f as int] > 0 {
                pos.predict(features)
            } else {
                neg.predict(features)
            },
        }
    }

    /// The instances of `insts` that follow the same path through the
    /// tree as a feature vector does, in their order.
    pub open spec fn routed(self, insts: Seq<&Instance>, features: Seq<u8>) -> Seq<&Instance>
        decreases self,
    {
        match self {
            DTree::Label(_) => insts,
            DTree::Branch { f, pos, neg } => if features[f as int] > 0 {
                pos.routed(taken(insts, f as int), features)
            } else {
                neg.routed(not_taken(insts, f as int), features)
            },
        }
    }

    /// Grow the tree below a path that has used the features in `used`.
    pub fn make_dtree<G, C>(
        insts: &[&Instance],
        used: HashSet<usize>,
        min_gain: Option<u64>,
        min_chisquare: Option<u64>,
        gain: &G,
        chi_square: &C,
    ) -> (tree: DTree) where
        G: Fn((usize, usize), (usize, usize)) -> u64,
        C: Fn(usize, usize) -> u64,

        requires
            insts@.len() > 0,
            is_corpus(insts@, insts@[0].features@.len()),
            used@.finite(),
            forall|f: usize| used@.contains(f) ==> f < insts@[0].features@.len(),
            is_split_measure(*gain),
            is_node_measure(*chi_square),
        ensures
            tree == induce(
                insts@,
                insts@[0].features@.len(),
                used@,
                split_scores(*gain),
                node_scores(*chi_square),
                min_gain,
                min_chisquare,
            ),
        decreases insts@[0].features@.len() - used@.len(),
    {
        let nfeatures = insts[0].features.len();
        let ghost width = nfeatures as nat;
        let ghost scores = split_scores(*gain);

        let (np, nn) = count_labels(insts);

        proof {
            lemma_used_within(used@, width);
        }
        if used.len() == nfeatures {
            return DTree::Label(np > nn);
        }
        if let Some(min_chisquare) = min_chisquare {
            let chs = chi_square(np, nn);
            if chs < min_chisquare {
                return DTree::Label(np > nn);
            }
        }
        let mut best: Option<(usize, u64, Vec<&Instance>, Vec<&Instance>)> = None;
        let mut f: usize = 0;
        while f < nfeatures
            invariant
                f <= nfeatures,
                nfeatures == width,
                insts@.len() > 0,
                width == insts@[0].features@.len(),
                is_corpus(insts@, width),
                is_split_measure(*gain),
                scores == split_scores(*gain),
                match best {
                    None => forall|g: usize| g < f ==> !eligible(insts@, used@, scores, g),
                    Some((bf, bg, pos, neg)) => {
                        &&& bf < f
                        &&& eligible(insts@, used@, scores, bf)
                        &&& bg == gain_at(insts@, scores, bf)
                        &&& pos@ == taken(insts@, bf as int)
                        &&& neg@ == not_taken(insts@, bf as int)
                        &&& forall|g: usize|
                            g < f && #[trigger] eligible(insts@, used@, scores, g) ==> {
                                &&& gain_at(insts@, scores, g) <= bg
                                &&& g < bf ==> gain_at(insts@, scores, g) < bg
                            }
                    },
                },
            decreases nfeatures - f,
        {
            if !used.contains(&f) {
                let (pos, neg) = split(insts, f);
                let npos = pos.len();
                let nneg = neg.len();
                if npos != 0 && nneg != 0 {
                    proof {
                        lemma_filter_keeps_corpus(insts@, has_feature(f as int), width);
                        lemma_filter_keeps_corpus(insts@, lacks_feature(f as int), width);
                    }
                    let on = count_labels(pos.as_slice());
                    let off = count_labels(neg.as_slice());
                    let g = gain(on, off);
                    if g != 0 {
                        let save = match &best {
                            None => true,
                            Some(b) => g > b.1,
                        };
                        if save {
                            best = Some((f, g, pos, neg));
                        }
                    }
                }
            }
            f += 1;
        }

        match best {
            None => {
                DTree::Label(np > nn)
            },
            Some((f, g, pos, neg)) => {
                assert(is_best(insts@, width, used@, scores, f));
                if let Some(min_gain) = min_gain {
                    if g < min_gain {
                        return DTree::Label(np > nn);
                    }
                }
                let mut used = used;
                used.insert(f);
                proof {
                    lemma_filter_keeps_corpus(insts@, has_feature(f as int), width);
                    lemma_filter_keeps_corpus(insts@, lacks_feature(f as int), width);
                }
                let pos = DTree::make_dtree(
                    pos.as_slice(),
                    clone_used(&used),
                    min_gain,
                    min_chisquare,
                    gain,
                    chi_square,
                );
                let neg = DTree::make_dtree(
                    neg.as_slice(),
                    used,
                    min_gain,
                    min_chisquare,
                    gain,
                    chi_square,
                );
                DTree::Branch { pos: Box::new(pos), neg: Box::new(neg), f }
            },
        }
    }

    /// Grow a tree from the root, with no feature used.
    pub fn new<G, C>(
        insts: &[&Instance],
        min_gain: Option<u64>,
        min_chisquare: Option<u64>,
        gain: &G,
        chi_square: &C,
    ) -> (tree: DTree) where
        G: Fn((usize, usize), (usize, usize)) -> u64,
        C: Fn(usize, usize) -> u64,

        requires
            insts@.len() > 0,
            is_corpus(insts@, insts@[0].features@.len()),
            is_split_measure(*gain),
            is_node_measure(*chi_square),
        ensures
            tree == induce(
                insts@,
                insts@[0].features@.len(),
                Set::empty(),
                split_scores(*gain),
                node_scores(*chi_square),
                min_gain,
                min_chisquare,
            ),
    {
        DTree::make_dtree(insts, HashSet::new(), min_gain, min_chisquare, gain, chi_square)
    }

    /// Follow the tree down to a leaf and return its label.
    pub fn classify(&self, inst: &Instance) -> (label: bool)
        requires
            self.fits(inst.features@.len()),
        ensures
            label == self.predict(inst.features@),
        decreases self,
    {
        match self {
            DTree::Label(l) => *l,
            DTree::Branch { f, pos, neg } => {
                if inst.features[*f] > 0 {
                    pos.classify(inst)
                } else {
                    neg.classify(inst)
                }
            },
        }
    }
}

/// Model info.
pub struct ID3(DTree);

impl ID3 {
    /// The tree that the model holds.
    pub closed spec fn tree(&self) -> DTree {
        self.0
    }
}

/// Build our model from the training instance data.
///
/// `gain` scores a split from the label counts of the instances that
/// have the feature and of those that lack it; it gives zero where the
/// split gains nothing. `chi_square` scores a node from its label counts.
/// The thresholds are scores of the same two kinds.
pub fn train<G, C>(
    insts: &[&Instance],
    min_gain: Option<u64>,
    min_chisquare: Option<u64>,
    gain: &G,
    chi_square: &C,
) -> (model: Box<ID3>) where
    G: Fn((usize, usize), (usize, usize)) -> u64,
    C: Fn(usize, usize) -> u64,

    requires
        insts@.len() > 0,
        is_corpus(insts@, insts@[0].features@.len()),
        is_split_measure(*gain),
        is_node_measure(*chi_square),
    ensures
        model.tree() == induce(
            insts@,
            insts@[0].features@.len(),
            Set::empty(),
            split_scores(*gain),
            node_scores(*chi_square),
            min_gain,
            min_chisquare,
        ),
        model.tree().fits(insts@[0].features@.len()),
        model.tree().fresh(Set::empty()),
        model.tree().height() <= insts@[0].features@.len(),
{
    let dtree = DTree::new(insts, min_gain, min_chisquare, gain, chi_square);
    proof {
        lemma_induce_shape(
            insts@,
            insts@[0].features@.len(),
            Set::empty(),
            split_scores(*gain),
            node_scores(*chi_square),
            min_gain,
            min_chisquare,
        );
    }
    Box::new(ID3(dtree))
}

impl Model for ID3 {
    /// The instance has every feature that the tree tests.
    open spec fn accepts(&self, instance: &Instance) -> bool {
        self.tree().fits(instance.features@.len())
    }

    /// The label at the end of the path that the instance follows.
    open spec fn predicts(&self, instance: &Instance) -> bool {
        self.tree().predict(instance.features@)
    }

    fn classify(&self, inst: &Instance) -> (label: bool) {
        self.0.classify(inst)
    }
}

/// A grown tree tests only features below `width`, none of `used`, and
/// none twice on a path; so no path is longer than the number of features
/// that are left.
pub proof fn lemma_induce_shape(
    insts: Seq<&Instance>,
    width: nat,
    used: Set<usize>,
    gain: spec_fn((usize, usize), (usize, usize)) -> u64,
    chi_square: spec_fn(usize, usize) -> u64,
    min_gain: Option<u64>,
    min_chisquare: Option<u64>,
)
    requires
        used.finite(),
    ensures
        induce(insts, width, used, gain, chi_square, min_gain, min_chisquare).fits(width),
        induce(insts, width, used, gain, chi_square, min_gain, min_chisquare).fresh(used),
        used.len() <= width ==> induce(
            insts,
            width,
            used,
            gain,
            chi_square,
            min_gain,
            min_chisquare,
        ).height() <= width - used.len(),
    decreases width - used.len(),
{
    let tree = induce(insts, width, used, gain, chi_square, min_gain, min_chisquare);
    match tree {
        DTree::Label(_) => {},
        DTree::Branch { f, pos, neg } => {
            lemma_induce_shape(
                taken(insts, f as int),
                width,
                used.insert(f),
                gain,
                chi_square,
                min_gain,
                min_chisquare,
            );
            lemma_induce_shape(
                not_taken(insts, f as int),
                width,
                used.insert(f),
                gain,
                chi_square,
                min_gain,
                min_chisquare,
            );
        },
    }
}

/// Every leaf of a grown tree predicts the majority label of the
/// training instances that reach it: whatever path a feature vector
/// follows, the prediction is positive exactly when the positive
/// instances on that path outnumber the negative ones.
pub proof fn lemma_leaf_predicts_majority(
    insts: Seq<&Instance>,
    width: nat,
    used: Set<usize>,
    gain: spec_fn((usize, usize), (usize, usize)) -> u64,
    chi_square: spec_fn(usize, usize) -> u64,
    min_gain: Option<u64>,
    min_chisquare: Option<u64>,
    features: Seq<u8>,
)
    requires
        used.finite(),
    ensures
        ({
            let tree = induce(insts, width, used, gain, chi_square, min_gain, min_chisquare);
            tree.predict(features) == majority(tree.routed(insts, features))
        }),
    decreases width - used.len(),
{
    let tree = induce(insts, width, used, gain, chi_square, min_gain, min_chisquare);
    match tree {
        DTree::Label(_) => {},
        DTree::Branch { f, pos, neg } => {
            let side = if features[f as int] > 0 {
                taken(insts, f as int)
            } else {
                not_taken(insts, f as int)
            };
            lemma_leaf_predicts_majority(
                side,
                width,
                used.insert(f),
                gain,
                chi_square,
                min_gain,
                min_chisquare,
                features,
            );
        },
    }
}

/// A tree grown over instances that all carry one label predicts that
/// label for every feature vector.
pub proof fn lemma_pure_set_predicts_its_label(
    insts: Seq<&Instance>,
    width: nat,
    used: Set<usize>,
    gain: spec_fn((usize, usize), (usize, usize)) -> u64,
    chi_square: spec_fn(usize, usize) -> u64,
    min_gain: Option<u64>,
    min_chisquare: Option<u64>,
    features: Seq<u8>,
    label: u8,
)
    requires
        used.finite(),
        insts.len() > 0,
        forall|i: int| 0 <= i < insts.len() ==> (#[trigger] insts[i]).label == label,
    ensures
        induce(insts, width, used, gain, chi_square, min_gain, min_chisquare).predict(features) == (
        label > 0),
    decreases width - used.len(),
{
    let tree = induce(insts, width, used, gain, chi_square, min_gain, min_chisquare);
    match tree {
        DTree::Label(_) => {
            lemma_positives_of_pure(insts, label);
        },
        DTree::Branch { f, pos, neg } => {
            let pred = if features[f as int] > 0 {
                has_feature(f as int)
            } else {
                lacks_feature(f as int)
            };
            let side = insts.filter(pred);
            assert forall|i: int| 0 <= i < side.len() implies (#[trigger] side[i]).label
                == label by {
                insts.lemma_filter_contains_rev(pred, side[i]);
            }
            lemma_pure_set_predicts_its_label(
                side,
                width,
                used.insert(f),
                gain,
                chi_square,
                min_gain,
                min_chisquare,
                features,
                label,
            );
        },
    }
}

/// A node whose chi-square score is below the threshold is a leaf with
/// the majority label, whatever the gains are; where its positive and
/// negative instances are equally many, the leaf predicts label 0.
pub proof fn lemma_low_chi_square_is_a_leaf(
    insts: Seq<&Instance>,
    width: nat,
    used: Set<usize>,
    gain: spec_fn((usize, usize), (usize, usize)) -> u64,
    chi_square: spec_fn(usize, usize) -> u64,
    min_gain: Option<u64>,
    threshold: u64,
)
    requires
        used.finite(),
        chi_square(tally(insts).0, tally(insts).1) < threshold,
    ensures
        induce(insts, width, used, gain, chi_square, min_gain, Some(threshold)) == DTree::Label(
            majority(insts),
        ),
        2 * positives(insts) == insts.len() ==> !majority(insts),
{
}

/// Two models trained on the same instances with the same measures and
/// thresholds hold the same tree, and so classify every instance alike.
pub proof fn lemma_training_is_deterministic(
    first: ID3,
    second: ID3,
    insts: Seq<&Instance>,
    width: nat,
    gain: spec_fn((usize, usize), (usize, usize)) -> u64,
    chi_square: spec_fn(usize, usize) -> u64,
    min_gain: Option<u64>,
    min_chisquare: Option<u64>,
    instance: &Instance,
)
    requires
        first.tree() == induce(
            insts,
            width,
            Set::empty(),
            gain,
            chi_square,
            min_gain,
            min_chisquare,
        ),
        second.tree() == induce(
            insts,
            width,
            Set::empty(),
            gain,
            chi_square,
            min_gain,
            min_chisquare,
        ),
    ensures
        first.tree() == second.tree(),
        first.accepts(instance) == second.accepts(instance),
        first.predicts(instance) == second.predicts(instance),
{
}

/// Where every instance carries `label`, all of them are positive or
/// none is.
proof fn lemma_positives_of_pure(insts: Seq<&Instance>, label: u8)
    requires
        forall|i: int| 0 <= i < insts.len() ==> (#[trigger] insts[i]).label == label,
    ensures
        positives(insts) == if label > 0 {
            insts.len()
        } else {
            0
        },
    decreases insts.len(),
{
    reveal(Seq::filter);
    if insts.len() > 0 {
        lemma_positives_of_pure(insts.drop_last(), label);
    }
}

/// `HashSet::clone` of the standard library: the copy holds the same
/// features as the set it was made from.
#[verifier::external_body]
fn clone_used(used: &HashSet<usize>) -> (copy: HashSet<usize>)
    ensures
        copy@ == used@,
{
    used.clone()
}

/// A finite set of features below `width` has at most `width` members.
proof fn lemma_used_within(used: Set<usize>, width: nat)
    requires
        used.finite(),
        width <= usize::MAX,
        forall|f: usize| used.contains(f) ==> f < width,
    ensures
        used.len() <= width,
{
    let all = Set::new(|f: usize| f < width);
    let ints = vstd::set_lib::set_int_range(0, width as int);
    assert(all =~= ints.map(|i: int| i as usize)) by {
        assert forall|f: usize| all.contains(f) implies ints.map(|i: int| i as usize).contains(
            f,
        ) by {
            assert(ints.contains(f as int));
        }
    }
    vstd::set_lib::lemma_int_range(0, width as int);
    ints.lemma_map_finite(|i: int| i as usize);
    vstd::set_lib::lemma_map_size_bound(ints, all, |i: int| i as usize);
    vstd::set_lib::lemma_len_subset(used, all);
}

/// What a filter keeps of a corpus is a corpus of the same width.
proof fn lemma_filter_keeps_corpus(
    insts: Seq<&Instance>,
    pred: spec_fn(&Instance) -> bool,
    width: nat,
)
    requires
        is_corpus(insts, width),
    ensures
        is_corpus(insts.filter(pred), width),
{
    let kept = insts.filter(pred);
    assert forall|i: int| 0 <= i < kept.len() implies (#[trigger] kept[i]).features@.len() == width
        && kept[i].label <= 1 by {
        insts.lemma_filter_contains_rev(pred, kept[i]);
    }
}

} // verus!
