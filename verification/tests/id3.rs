use binlearn::id3::{count_labels, split, train, DTree};
use binlearn::{Instance, Model};
use std::collections::HashSet;

fn inst(label: u8, features: &[u8]) -> Instance {
    Instance { name: String::new(), label, features: features.to_vec() }
}

fn score(x: f64) -> u64 {
    if x > 0.0 {
        x.to_bits()
    } else {
        0
    }
}

fn entropy(np: usize, nn: usize) -> f64 {
    if np == 0 || nn == 0 {
        return 0.0;
    }
    let n = (np + nn) as f64;
    let p = np as f64 / n;
    let q = nn as f64 / n;
    -p * f64::log2(p) - q * f64::log2(q)
}

fn chi_square(pos: usize, neg: usize) -> f64 {
    let pos = pos as f64;
    let neg = neg as f64;
    let avg = (pos + neg) / 2.0;
    let dpos = pos - avg;
    let dneg = neg - avg;
    (dpos * dpos + dneg * dneg) / avg
}

fn gain(on: (usize, usize), off: (usize, usize)) -> f64 {
    let npos = on.0 + on.1;
    let nneg = off.0 + off.1;
    let n = (npos + nneg) as f64;
    entropy(on.0 + off.0, on.1 + off.1)
        - npos as f64 / n * entropy(on.0, on.1)
        - nneg as f64 / n * entropy(off.0, off.1)
}

fn learn(
    data: &[Instance],
    min_gain: Option<f64>,
    min_chisquare: Option<f64>,
) -> Box<binlearn::id3::ID3> {
    let refs: Vec<&Instance> = data.iter().collect();
    train(
        &refs,
        min_gain.map(score),
        min_chisquare.map(score),
        &|on, off| score(gain(on, off)),
        &|np, nn| score(chi_square(np, nn)),
    )
}

fn leaf(label: bool) -> Box<DTree> {
    Box::new(DTree::Label(label))
}

#[test]
fn chi_square_of_even_counts_is_zero() {
    assert_eq!(chi_square(50, 50), 0.0);
    assert_eq!(score(chi_square(50, 50)), 0);
}

#[test]
fn entropy_of_a_pure_set_is_zero() {
    assert_eq!(entropy(7, 0), 0.0);
    assert_eq!(entropy(0, 3), 0.0);
    assert_eq!(entropy(4, 4), 1.0);
}

#[test]
fn count_labels_counts_both() {
    let data = vec![inst(1, &[0]), inst(0, &[0]), inst(1, &[1]), inst(1, &[0])];
    let refs: Vec<&Instance> = data.iter().collect();
    assert_eq!(count_labels(&refs), (3, 1));
    assert_eq!(count_labels(&refs[1..2]), (0, 1));
    assert_eq!(count_labels(&[]), (0, 0));
}

#[test]
fn split_parts_by_feature_and_keeps_order() {
    let data = vec![
        Instance { name: "a".to_string(), label: 0, features: vec![0, 1] },
        Instance { name: "b".to_string(), label: 1, features: vec![1, 0] },
        Instance { name: "c".to_string(), label: 0, features: vec![3, 0] },
        Instance { name: "d".to_string(), label: 1, features: vec![0, 0] },
    ];
    let refs: Vec<&Instance> = data.iter().collect();
    let (pos, neg) = split(&refs, 0);
    let names = |v: &Vec<&Instance>| v.iter().map(|i| i.name.clone()).collect::<Vec<_>>();
    assert_eq!(names(&pos), vec!["b", "c"]);
    assert_eq!(names(&neg), vec!["a", "d"]);
    let (pos, neg) = split(&refs, 1);
    assert_eq!(names(&pos), vec!["a"]);
    assert_eq!(names(&neg), vec!["b", "c", "d"]);
}

#[test]
fn tree_classify_follows_the_branches() {
    let tree = DTree::Branch {
        f: 1,
        pos: Box::new(DTree::Branch { f: 0, pos: leaf(true), neg: leaf(false) }),
        neg: leaf(true),
    };
    assert!(tree.classify(&inst(0, &[1, 1])));
    assert!(!tree.classify(&inst(0, &[0, 1])));
    assert!(tree.classify(&inst(0, &[0, 0])));
    assert!(tree.classify(&inst(0, &[1, 0])));
    assert!(tree.classify(&inst(0, &[5, 9, 0])));
    assert!(DTree::Label(true).classify(&inst(0, &[])));
    assert!(!DTree::Label(false).classify(&inst(0, &[])));
}

#[test]
fn four_instances_split_perfectly() {
    let data = vec![
        inst(0, &[0, 0]),
        inst(0, &[0, 1]),
        inst(1, &[1, 0]),
        inst(1, &[1, 1]),
    ];
    let model = learn(&data, None, None);
    for i in &data {
        assert_eq!(model.classify(i), i.label == 1);
    }
}

#[test]
fn four_instances_split_on_the_second_feature() {
    let data = vec![
        inst(0, &[0, 0]),
        inst(1, &[0, 1]),
        inst(0, &[1, 0]),
        inst(1, &[1, 1]),
    ];
    let model = learn(&data, None, None);
    for i in &data {
        assert_eq!(model.classify(i), i.label == 1);
    }
}

#[test]
fn even_counts_are_pruned_by_chi_square() {
    let mut data = Vec::new();
    for _ in 0..50 {
        data.push(inst(1, &[1, 0]));
        data.push(inst(0, &[0, 1]));
    }
    // Unpruned, the first feature tells the labels apart.
    let model = learn(&data, None, None);
    assert!(model.classify(&inst(0, &[1, 0])));
    assert!(!model.classify(&inst(0, &[0, 1])));
    // Pruned at the root, the tie gives label 0 everywhere.
    for threshold in [3.841, 0.001, 100.0] {
        let model = learn(&data, None, Some(threshold));
        assert!(!model.classify(&inst(0, &[1, 0])));
        assert!(!model.classify(&inst(0, &[0, 1])));
    }
}

#[test]
fn chi_square_threshold_of_zero_prunes_nothing() {
    let mut data = Vec::new();
    for _ in 0..50 {
        data.push(inst(1, &[1, 0]));
        data.push(inst(0, &[0, 1]));
    }
    let model = learn(&data, None, Some(0.0));
    assert!(model.classify(&inst(0, &[1, 0])));
    assert!(!model.classify(&inst(0, &[0, 1])));
}

#[test]
fn uneven_counts_pass_chi_square() {
    // counts (9, 1): chi-square is (4^2 + 4^2) / 5 = 6.4
    assert_eq!(chi_square(9, 1), 6.4);
    let mut data = vec![inst(0, &[0])];
    for _ in 0..9 {
        data.push(inst(1, &[1]));
    }
    let model = learn(&data, None, Some(3.841));
    assert!(model.classify(&inst(0, &[1])));
    assert!(!model.classify(&inst(0, &[0])));
    // Above 6.4 the root is a leaf with the majority label.
    let model = learn(&data, None, Some(6.5));
    assert!(model.classify(&inst(0, &[1])));
    assert!(model.classify(&inst(0, &[0])));
}

#[test]
fn a_pure_set_gives_its_label() {
    let data = vec![inst(1, &[0, 1]), inst(1, &[1, 0]), inst(1, &[1, 1])];
    let model = learn(&data, None, None);
    for q in [[0u8, 0], [0, 1], [1, 0], [1, 1]] {
        assert!(model.classify(&inst(0, &q)));
    }
    let data = vec![inst(0, &[0, 1]), inst(0, &[1, 0])];
    let model = learn(&data, None, None);
    for q in [[0u8, 0], [0, 1], [1, 0], [1, 1]] {
        assert!(!model.classify(&inst(0, &q)));
    }
}

#[test]
fn a_leaf_with_all_features_used_gives_the_majority() {
    // No gain at the root: one positive of two on each side.
    let data = vec![inst(1, &[1]), inst(0, &[1]), inst(0, &[0]), inst(1, &[0])];
    let model = learn(&data, None, None);
    assert!(!model.classify(&inst(0, &[1])));
    assert!(!model.classify(&inst(0, &[0])));
    // Two of the three instances that have the feature are positive.
    let data = vec![
        inst(1, &[1]),
        inst(1, &[1]),
        inst(0, &[1]),
        inst(0, &[0]),
        inst(0, &[0]),
    ];
    let model = learn(&data, None, None);
    assert!(model.classify(&inst(0, &[1])));
    assert!(!model.classify(&inst(0, &[0])));
}

#[test]
fn a_tie_at_a_leaf_gives_label_zero() {
    let data = vec![inst(1, &[1]), inst(0, &[1])];
    let model = learn(&data, None, None);
    assert!(!model.classify(&inst(0, &[1])));
    assert!(!model.classify(&inst(0, &[0])));
}

#[test]
fn no_features_gives_the_majority() {
    let data = vec![inst(1, &[]), inst(1, &[]), inst(0, &[])];
    let model = learn(&data, None, None);
    assert!(model.classify(&inst(0, &[])));
}

#[test]
fn exclusive_or_is_not_split() {
    // Neither feature alone gains anything, so the root stays a leaf.
    let data = vec![
        inst(0, &[0, 0]),
        inst(1, &[0, 1]),
        inst(1, &[1, 0]),
        inst(0, &[1, 1]),
    ];
    let model = learn(&data, None, None);
    for i in &data {
        assert!(!model.classify(i));
    }
}

#[test]
fn two_levels_are_grown() {
    // Label is feature 0 and feature 1; feature 2 is noise.
    let mut data = Vec::new();
    for a in 0..2u8 {
        for b in 0..2u8 {
            for c in 0..2u8 {
                data.push(inst(a & b, &[a, b, c]));
            }
        }
    }
    let model = learn(&data, None, None);
    for i in &data {
        assert_eq!(model.classify(i), i.label == 1);
    }
}

#[test]
fn the_first_of_equal_gains_is_chosen() {
    // Both features tell the labels apart alike on the training set.
    let data = vec![inst(0, &[0, 0]), inst(1, &[1, 1])];
    let model = learn(&data, None, None);
    // Only the first feature is tested.
    assert!(model.classify(&inst(0, &[1, 0])));
    assert!(!model.classify(&inst(0, &[0, 1])));
}

#[test]
fn the_greater_gain_is_chosen() {
    // Feature 1 tells the labels apart; feature 0 only in part.
    let data = vec![
        inst(0, &[0, 0]),
        inst(0, &[0, 0]),
        inst(0, &[1, 0]),
        inst(1, &[1, 1]),
        inst(1, &[1, 1]),
        inst(1, &[0, 1]),
    ];
    let model = learn(&data, None, None);
    assert!(model.classify(&inst(0, &[0, 1])));
    assert!(!model.classify(&inst(0, &[1, 0])));
}

#[test]
fn a_small_gain_is_pruned_by_min_gain() {
    // gain of the only split: 1 - (4/8)*H(3,1) - (4/8)*H(1,3), about 0.189
    let mut data = Vec::new();
    for _ in 0..3 {
        data.push(inst(1, &[1]));
        data.push(inst(0, &[0]));
    }
    data.push(inst(0, &[1]));
    data.push(inst(1, &[0]));
    let g = gain((3, 1), (1, 3));
    assert!((g - 0.18872187554086717).abs() < 1e-12);
    let model = learn(&data, Some(0.05), None);
    assert!(model.classify(&inst(0, &[1])));
    assert!(!model.classify(&inst(0, &[0])));
    let model = learn(&data, Some(0.2), None);
    assert!(!model.classify(&inst(0, &[1])));
    assert!(!model.classify(&inst(0, &[0])));
    // A threshold that the gain meets exactly does not prune.
    let model = learn(&data, Some(g), None);
    assert!(model.classify(&inst(0, &[1])));
}

#[test]
fn a_negative_min_gain_prunes_nothing() {
    let data = vec![inst(0, &[0]), inst(1, &[1])];
    let model = learn(&data, Some(-1.0), None);
    assert!(model.classify(&inst(0, &[1])));
    assert!(!model.classify(&inst(0, &[0])));
}

#[test]
fn tree_takes_any_value_above_zero_as_on() {
    let data = vec![inst(0, &[0]), inst(1, &[1])];
    let model = learn(&data, None, None);
    assert!(model.classify(&inst(0, &[7])));
}

#[test]
fn training_twice_classifies_alike() {
    let mut data = Vec::new();
    for a in 0..2u8 {
        for b in 0..2u8 {
            for c in 0..2u8 {
                data.push(inst((a | b) & (1 - c), &[a, b, c]));
            }
        }
    }
    let first = learn(&data, Some(0.01), Some(0.1));
    let second = learn(&data, Some(0.01), Some(0.1));
    for a in 0..2u8 {
        for b in 0..2u8 {
            for c in 0..2u8 {
                let q = inst(0, &[a, b, c]);
                assert_eq!(first.classify(&q), second.classify(&q));
            }
        }
    }
}

#[test]
fn integer_measures_steer_the_tree() {
    // A gain that favours the split with the most positives on its "on" side.
    let data = vec![
        inst(1, &[1, 0]),
        inst(1, &[1, 1]),
        inst(0, &[0, 1]),
        inst(0, &[0, 0]),
    ];
    let refs: Vec<&Instance> = data.iter().collect();
    let model = train(&refs, None, None, &|on, _off| on.0 as u64, &|_np, _nn| 0);
    assert!(model.classify(&inst(0, &[1, 0])));
    assert!(!model.classify(&inst(0, &[0, 1])));
    // With every gain zero nothing is split.
    let model = train(&refs, None, None, &|_on, _off| 0, &|_np, _nn| 0);
    assert!(!model.classify(&inst(0, &[1, 0])));
    // A chi-square score below the threshold makes the root a leaf.
    let model = train(&refs, None, Some(5), &|on, _off| on.0 as u64, &|_np, _nn| 4);
    assert!(!model.classify(&inst(0, &[1, 0])));
    let model = train(&refs, None, Some(4), &|on, _off| on.0 as u64, &|_np, _nn| 4);
    assert!(model.classify(&inst(0, &[1, 0])));
}

#[test]
fn a_gain_that_is_not_positive_scores_zero() {
    assert_eq!(score(0.0), 0);
    assert_eq!(score(-0.0), 0);
    assert_eq!(score(-1.0e-17), 0);
    assert_eq!(score(-3.0), 0);
    assert!(score(1.0e-17) > 0);
    assert!(score(0.5) < score(0.75));
    assert!(score(1.0e-300) < score(1.0e-17));
}

#[test]
fn a_tiny_negative_gain_is_no_gain() {
    let data = vec![inst(0, &[0]), inst(1, &[1]), inst(1, &[1])];
    let refs: Vec<&Instance> = data.iter().collect();
    let model = train(&refs, None, None, &|_on, _off| score(-1.0e-17), &|_np, _nn| 0);
    // No split: the majority label everywhere.
    assert!(model.classify(&inst(0, &[0])));
    assert!(model.classify(&inst(0, &[1])));
}

#[test]
fn gain_of_a_perfect_split_is_one_bit() {
    assert_eq!(gain((2, 0), (0, 2)), 1.0);
    assert_eq!(gain((1, 1), (1, 1)), 0.0);
}

#[test]
fn make_dtree_leaves_used_features_alone() {
    // Feature 0 tells the labels apart, feature 1 only in part.
    let data = vec![
        inst(0, &[0, 0]),
        inst(0, &[0, 0]),
        inst(0, &[0, 1]),
        inst(1, &[1, 1]),
        inst(1, &[1, 1]),
        inst(1, &[1, 0]),
    ];
    let refs: Vec<&Instance> = data.iter().collect();
    let gain_score = |on: (usize, usize), off: (usize, usize)| score(gain(on, off));
    let no_chi = |_np: usize, _nn: usize| 0u64;
    let tree = DTree::make_dtree(&refs, HashSet::new(), None, None, &gain_score, &no_chi);
    assert!(tree.classify(&inst(0, &[1, 0])));
    assert!(!tree.classify(&inst(0, &[0, 1])));
    // With feature 0 used on the path, only feature 1 is left to split on.
    let mut used = HashSet::new();
    used.insert(0);
    let tree = DTree::make_dtree(&refs, used, None, None, &gain_score, &no_chi);
    assert!(!tree.classify(&inst(0, &[1, 0])));
    assert!(tree.classify(&inst(0, &[0, 1])));
    // With both used, the root is a leaf; three against three gives label 0.
    let mut used = HashSet::new();
    used.insert(0);
    used.insert(1);
    let tree = DTree::make_dtree(&refs, used, None, None, &gain_score, &no_chi);
    assert!(!tree.classify(&inst(0, &[1, 1])));
}

#[test]
fn new_grows_from_the_root() {
    let data = vec![inst(0, &[0, 1]), inst(1, &[1, 1])];
    let refs: Vec<&Instance> = data.iter().collect();
    let tree = DTree::new(
        &refs,
        None,
        None,
        &|on: (usize, usize), off: (usize, usize)| score(gain(on, off)),
        &|_np: usize, _nn: usize| 0u64,
    );
    match tree {
        DTree::Branch { f, pos, neg } => {
            assert_eq!(f, 0);
            assert!(matches!(*pos, DTree::Label(true)));
            assert!(matches!(*neg, DTree::Label(false)));
        }
        DTree::Label(_) => panic!("the root should split"),
    }
}

fn walk(t: &DTree, seen: &mut Vec<usize>, depth: usize) {
    if let DTree::Branch { f, pos, neg } = t {
        assert!(*f < 3);
        assert!(!seen.contains(f));
        assert!(depth < 3);
        seen.push(*f);
        walk(pos, seen, depth + 1);
        walk(neg, seen, depth + 1);
        seen.pop();
    }
}

#[test]
fn a_feature_is_not_tested_twice_on_a_path() {
    let mut data = Vec::new();
    for a in 0..2u8 {
        for b in 0..2u8 {
            for c in 0..2u8 {
                data.push(inst(a & (b | c), &[a, b, c]));
            }
        }
    }
    let refs: Vec<&Instance> = data.iter().collect();
    let tree = DTree::new(
        &refs,
        None,
        None,
        &|on: (usize, usize), off: (usize, usize)| score(gain(on, off)),
        &|_np: usize, _nn: usize| 0u64,
    );
    walk(&tree, &mut Vec::new(), 0);
    for i in &data {
        assert_eq!(tree.classify(i), i.label == 1);
    }
}
