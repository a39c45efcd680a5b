//! Cross-validation: which instances train a model and which test it,
//! and how the model's answers on the test instances are counted.

use crate::evenchunks::{chunk, chunk_start, lemma_chunk_bounds, EvenChunks};
use crate::{Instance, Model};
use vstd::prelude::*;
use vstd::slice::slice_subrange;

verus! {

/// The instances that a sequence of references points to.
pub open spec fn pointed(refs: Seq<&Instance>) -> Seq<Instance> {
    Seq::new(refs.len(), |i: int| *refs[i])
}

/// The instances outside chunk `i` when `s` is cut into `n` chunks, in
/// their order.
pub open spec fn outside_chunk(s: Seq<Instance>, n: nat, i: nat) -> Seq<Instance> {
    s.subrange(0, chunk_start(s.len(), n, i) as int) + s.subrange(
        chunk_start(s.len(), n, i + 1) as int,
        s.len() as int,
    )
}

/// A single split in the middle: the second half trains, the first half
/// tests.
pub fn halves<'a>(instances: &'a [Instance]) -> (split: (Vec<&'a Instance>, &'a [Instance]))
    ensures
        split.1@ == instances@.subrange(0, instances@.len() as int / 2),
        pointed(split.0@) == instances@.subrange(
            instances@.len() as int / 2,
            instances@.len() as int,
        ),
{
    let split = instances.len() / 2;
    let mut training: Vec<&'a Instance> = Vec::new();
    let mut k: usize = split;
    while k < instances.len()
        invariant
            split <= k <= instances@.len(),
            pointed(training@) == instances@.subrange(split as int, k as int),
        decreases instances@.len() - k,
    {
        let ghost earlier = training@;
        training.push(&instances[k]);
        proof {
            lemma_pointed_push(earlier, &instances@[k as int]);
            assert(instances@.subrange(split as int, k as int).push(instances@[k as int])
                =~= instances@.subrange(split as int, k + 1));
        }
        k += 1;
    }
    (training, slice_subrange(instances, 0, split))
}

/// Crossval splits: for each of the `n` even chunks in turn, the
/// instances outside that chunk to train on, and the chunk to test on.
pub fn folds<'a>(instances: &'a [Instance], n: usize) -> (splits: Vec<
    (Vec<&'a Instance>, &'a [Instance]),
>)
    requires
        1 <= n <= instances@.len(),
    ensures
        splits@.len() == n,
        forall|i: int|
            0 <= i < n ==> (#[trigger] splits@[i]).1@ == chunk(instances@, n as nat, i as nat)
                && pointed(splits@[i].0@) == outside_chunk(instances@, n as nat, i as nat),
{
    let ghost s = instances@;
    let ghost len = s.len();
    let chunks: Vec<&'a [Instance]> = EvenChunks::nchunks(instances, n).collect();
    let mut splits: Vec<(Vec<&'a Instance>, &'a [Instance])> = Vec::new();
    let mut i: usize = 0;
    while i < n
        invariant
            i <= n,
            1 <= n <= len,
            s == instances@,
            len == s.len(),
            chunks@.len() == n,
            forall|j: int| 0 <= j < n ==> (#[trigger] chunks@[j])@ == chunk(s, n as nat, j as nat),
            splits@.len() == i,
            forall|j: int|
                0 <= j < i ==> (#[trigger] splits@[j]).1@ == chunk(s, n as nat, j as nat)
                    && pointed(splits@[j].0@) == outside_chunk(s, n as nat, j as nat),
        decreases n - i,
    {
        let ghost held_from = chunk_start(len, n as nat, i as nat) as int;
        let ghost held_to = chunk_start(len, n as nat, i as nat + 1) as int;
        let mut training: Vec<&'a Instance> = Vec::new();
        let mut j: usize = 0;
        proof {
            lemma_chunk_bounds(len, n as nat, 0);
            lemma_chunk_bounds(len, n as nat, i as nat);
            lemma_starts_ascend(len, n as nat, 0, i as nat);
        }
        while j < n
            invariant
                i < n,
                j <= n,
                1 <= n <= len,
                len == s.len(),
                chunks@.len() == n,
                forall|j: int|
                    0 <= j < n ==> (#[trigger] chunks@[j])@ == chunk(s, n as nat, j as nat),
                held_from == chunk_start(len, n as nat, i as nat),
                held_to == chunk_start(len, n as nat, i as nat + 1),
                0 <= held_from <= held_to <= len,
                chunk_start(len, n as nat, j as nat) <= len,
                j <= i ==> chunk_start(len, n as nat, j as nat) <= held_from,
                j > i ==> held_to <= chunk_start(len, n as nat, j as nat),
                pointed(training@) == if j <= i {
                    s.subrange(0, chunk_start(len, n as nat, j as nat) as int)
                } else {
                    s.subrange(0, held_from) + s.subrange(
                        held_to,
                        chunk_start(len, n as nat, j as nat) as int,
                    )
                },
            decreases n - j,
        {
            let ghost from = chunk_start(len, n as nat, j as nat) as int;
            let ghost to = chunk_start(len, n as nat, j as nat + 1) as int;
            proof {
                lemma_chunk_bounds(len, n as nat, j as nat);
                if j < i {
                    lemma_starts_ascend(len, n as nat, j as nat + 1, i as nat);
                }
            }
            if j != i {
                let part = chunks[j];
                let ghost before = pointed(training@);
                let mut t: usize = 0;
                while t < part.len()
                    invariant
                        t <= part@.len(),
                        part@ == s.subrange(from, to),
                        0 <= from <= to <= len,
                        len == s.len(),
                        pointed(training@) == before + s.subrange(from, from + t),
                    decreases part@.len() - t,
                {
                    let ghost earlier = training@;
                    training.push(&part[t]);
                    proof {
                        lemma_pointed_push(earlier, &part@[t as int]);
                        assert((before + s.subrange(from, from + t)).push(s[from + t]) =~= before
                            + s.subrange(from, from + t + 1));
                    }
                    t += 1;
                }
                proof {
                    if j < i {
                    } else {
                        assert(s.subrange(0, held_from) + s.subrange(held_to, from) + s.subrange(
                            from,
                            to,
                        ) =~= s.subrange(0, held_from) + s.subrange(held_to, to));
                    }
                }
            } else {
                proof {
                    assert(s.subrange(0, held_from) + s.subrange(held_to, held_to) =~= s.subrange(
                        0,
                        held_from,
                    ));
                }
            }
            j += 1;
        }
        proof {
            lemma_chunk_bounds(len, n as nat, 0);
        }
        splits.push((training, chunks[i]));
        i += 1;
    }
    splits
}

/// Find the list of training / test splits: a single split in the middle
/// where no crossval is asked for, else `n` crossval splits, with the
/// number of instances for `n` where 0 is asked for.
pub fn splits<'a>(instances: &'a [Instance], crossval: Option<usize>) -> (samples: Vec<
    (Vec<&'a Instance>, &'a [Instance]),
>)
    requires
        crossval is Some ==> 1 <= instances@.len() && crossval->0 <= instances@.len(),
    ensures
        match crossval {
            None => {
                &&& samples@.len() == 1
                &&& samples@[0].1@ == instances@.subrange(0, instances@.len() as int / 2)
                &&& pointed(samples@[0].0@) == instances@.subrange(
                    instances@.len() as int / 2,
                    instances@.len() as int,
                )
            },
            Some(asked) => {
                let n = if asked == 0 {
                    instances@.len()
                } else {
                    asked as nat
                };
                &&& samples@.len() == n
                &&& forall|i: int|
                    0 <= i < n ==> (#[trigger] samples@[i]).1@ == chunk(instances@, n, i as nat)
                        && pointed(samples@[i].0@) == outside_chunk(instances@, n, i as nat)
            },
        },
{
    match crossval {
        // Single 50/50 split.
        None => {
            let mut samples = Vec::new();
            samples.push(halves(instances));
            samples
        },
        Some(mut n) => {
            if n == 0 {
                n = instances.len();
            }
            folds(instances, n)
        },
    }
}

/// The place of an answer among the four counts: twice the actual label
/// plus the predicted one.
pub open spec fn place(actual: u8, predicted: bool) -> int {
    2 * actual + if predicted {
        1int
    } else {
        0int
    }
}

/// The test instances before `upto` with this actual label that the
/// model gives this predicted label.
pub open spec fn answered<M: Model>(
    model: &M,
    test: Seq<Instance>,
    upto: int,
    actual: u8,
    predicted: bool,
) -> Set<int> {
    Set::new(
        |i: int| 0 <= i < upto && test[i].label == actual && model.predicts(&test[i]) == predicted,
    )
}

/// Classify every test instance and count the answers by actual and
/// predicted label: `[n00, n01, n10, n11]`, where `nXY` counts the
/// instances of actual label X that the model gives label Y.
pub fn confusion<M: Model>(model: &M, test: &[Instance]) -> (stats: [usize; 4])
    requires
        forall|i: int|
            0 <= i < test@.len() ==> model.accepts(#[trigger] &test@[i]) && test@[i].label <= 1,
    ensures
        forall|actual: u8, predicted: bool|
            actual <= 1 ==> stats@[place(actual, predicted)] == (#[trigger] answered(
                model,
                test@,
                test@.len() as int,
                actual,
                predicted,
            )).len(),
        stats@[0] + stats@[1] + stats@[2] + stats@[3] == test@.len(),
{
    let mut stats: [usize; 4] = [0, 0, 0, 0];
    let mut k: usize = 0;
    proof {
        assert forall|actual: u8, predicted: bool| actual <= 1 implies (#[trigger] answered(
            model,
            test@,
            0,
            actual,
            predicted,
        )) =~= Set::<int>::empty() by {}
    }
    while k < test.len()
        invariant
            k <= test@.len(),
            forall|i: int|
                0 <= i < test@.len() ==> model.accepts(#[trigger] &test@[i]) && test@[i].label <= 1,
            forall|actual: u8, predicted: bool|
                actual <= 1 ==> stats@[place(actual, predicted)] == (#[trigger] answered(
                    model,
                    test@,
                    k as int,
                    actual,
                    predicted,
                )).len(),
            stats@[0] + stats@[1] + stats@[2] + stats@[3] == k,
        decreases test@.len() - k,
    {
        let c = &test[k];
        let actual = c.label;
        let predicted = model.classify(c);
        let ix: usize = match (actual, predicted) {
            (0, false) => 0,
            (0, true) => 1,
            (_, false) => 2,
            (_, true) => 3,
        };
        proof {
            assert forall|a: u8, p: bool| a <= 1 implies (#[trigger] answered(
                model,
                test@,
                k + 1,
                a,
                p,
            )).len() == answered(model, test@, k as int, a, p).len() + if a == actual && p
                == predicted {
                1nat
            } else {
                0nat
            } by {
                lemma_answered_step(model, test@, k as int, a, p);
            }
        }
        stats[ix] += 1;
        k += 1;
    }
    stats
}

/// Counting one more test instance adds one to the count of its own
/// actual and predicted label, and to no other.
proof fn lemma_answered_step<M: Model>(
    model: &M,
    test: Seq<Instance>,
    k: int,
    actual: u8,
    predicted: bool,
)
    requires
        0 <= k < test.len(),
    ensures
        answered(model, test, k, actual, predicted).finite(),
        answered(model, test, k, actual, predicted).len() <= k,
        answered(model, test, k + 1, actual, predicted).len() == answered(
            model,
            test,
            k,
            actual,
            predicted,
        ).len() + if test[k].label == actual && model.predicts(&test[k]) == predicted {
            1nat
        } else {
            0nat
        },
{
    let before = answered(model, test, k, actual, predicted);
    vstd::set_lib::lemma_int_range(0, k);
    vstd::set_lib::lemma_len_subset(before, vstd::set_lib::set_int_range(0, k));
    if test[k].label == actual && model.predicts(&test[k]) == predicted {
        assert(answered(model, test, k + 1, actual, predicted) =~= before.insert(k));
    } else {
        assert(answered(model, test, k + 1, actual, predicted) =~= before);
    }
}

/// One more reference pushed points to one more instance.
proof fn lemma_pointed_push(refs: Seq<&Instance>, r: &Instance)
    ensures
        pointed(refs.push(r)) == pointed(refs).push(*r),
{
}

/// A later chunk begins no earlier than an earlier one.
proof fn lemma_starts_ascend(len: nat, n: nat, i: nat, j: nat)
    requires
        1 <= n,
        i <= j <= n,
    ensures
        chunk_start(len, n, i) <= chunk_start(len, n, j),
    decreases j - i,
{
    if i < j {
        lemma_chunk_bounds(len, n, i);
        lemma_starts_ascend(len, n, i + 1, j);
    }
}

} // verus!
