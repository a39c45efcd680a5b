//! Learners for binary classification over fixed-width binary feature
//! vectors, with the even partitioner that drives cross-validation.

use vstd::prelude::*;

pub mod bits;
pub mod crossval;
pub mod evenchunks;
pub mod id3;
pub mod knn;
pub mod nbayes;
pub mod neighbors;

verus! {

/// Instance from corpus.
#[derive(Debug, Clone)]
pub struct Instance {
    /// Instance name.
    pub name: String,
    /// Instance classification label.
    pub label: u8,
    /// Instance feature labels.
    pub features: Vec<u8>,
}

impl Instance {
    /// Whether feature `f` is on: any value above zero counts.
    pub open spec fn on(&self, f: int) -> bool {
        self.features@[f] > 0
    }

    /// Whether every feature value is 0 or 1.
    pub open spec fn binary(&self) -> bool {
        forall|f: int| 0 <= f < self.features@.len() ==> #[trigger] self.features@[f] <= 1
    }
}

/// A training set the learners accept: every instance carries `width`
/// features and a label of 0 or 1.
pub open spec fn is_corpus(insts: Seq<&Instance>, width: nat) -> bool {
    forall|i: int|
        0 <= i < insts.len() ==> (#[trigger] insts[i]).features@.len() == width && insts[i].label
            <= 1
}

/// Trait representing results of training a particular kind of model.
pub trait Model {
    /// The instances this model can classify.
    spec fn accepts(&self, instance: &Instance) -> bool;

    /// The label this model gives an instance: `true` stands for label 1.
    spec fn predicts(&self, instance: &Instance) -> bool;

    /// Classify an instance based on this model's data.
    fn classify(&self, instance: &Instance) -> (label: bool)
        requires
            self.accepts(instance),
        ensures
            label == self.predicts(instance),
    ;
}

} // verus!
