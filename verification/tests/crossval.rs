use binlearn::crossval::{confusion, folds, halves, splits};
use binlearn::id3::DTree;
use binlearn::knn;
use binlearn::Instance;

fn inst(name: &str, label: u8, features: &[u8]) -> Instance {
    Instance { name: name.to_string(), label, features: features.to_vec() }
}

fn corpus(n: usize) -> Vec<Instance> {
    (0..n).map(|i| inst(&format!("i{}", i), (i % 2) as u8, &[(i % 3) as u8])).collect()
}

fn names(v: &[&Instance]) -> Vec<String> {
    v.iter().map(|i| i.name.clone()).collect()
}

fn names_of(v: &[Instance]) -> Vec<String> {
    v.iter().map(|i| i.name.clone()).collect()
}

#[test]
fn halves_train_on_the_second_half() {
    let data = corpus(5);
    let (train, test) = halves(&data);
    assert_eq!(names_of(test), vec!["i0", "i1"]);
    assert_eq!(names(&train), vec!["i2", "i3", "i4"]);
}

#[test]
fn halves_of_one_instance() {
    let data = corpus(1);
    let (train, test) = halves(&data);
    assert!(test.is_empty());
    assert_eq!(names(&train), vec!["i0"]);
}

#[test]
fn halves_of_nothing() {
    let data = corpus(0);
    let (train, test) = halves(&data);
    assert!(test.is_empty());
    assert!(train.is_empty());
}

#[test]
fn folds_hold_out_each_chunk_in_turn() {
    let data = corpus(7);
    let got = folds(&data, 3);
    assert_eq!(got.len(), 3);
    assert_eq!(names_of(got[0].1), vec!["i0", "i1", "i2"]);
    assert_eq!(names(&got[0].0), vec!["i3", "i4", "i5", "i6"]);
    assert_eq!(names_of(got[1].1), vec!["i3", "i4"]);
    assert_eq!(names(&got[1].0), vec!["i0", "i1", "i2", "i5", "i6"]);
    assert_eq!(names_of(got[2].1), vec!["i5", "i6"]);
    assert_eq!(names(&got[2].0), vec!["i0", "i1", "i2", "i3", "i4"]);
}

#[test]
fn one_fold_trains_on_nothing() {
    let data = corpus(3);
    let got = folds(&data, 1);
    assert_eq!(got.len(), 1);
    assert!(got[0].0.is_empty());
    assert_eq!(names_of(got[0].1), vec!["i0", "i1", "i2"]);
}

#[test]
fn splits_without_crossval_is_one_split_in_the_middle() {
    let data = corpus(6);
    let got = splits(&data, None);
    assert_eq!(got.len(), 1);
    assert_eq!(names_of(got[0].1), vec!["i0", "i1", "i2"]);
    assert_eq!(names(&got[0].0), vec!["i3", "i4", "i5"]);
}

#[test]
fn splits_with_crossval_cuts_into_that_many() {
    let data = corpus(6);
    let got = splits(&data, Some(2));
    assert_eq!(got.len(), 2);
    assert_eq!(names_of(got[0].1), vec!["i0", "i1", "i2"]);
    assert_eq!(names(&got[0].0), vec!["i3", "i4", "i5"]);
    assert_eq!(names_of(got[1].1), vec!["i3", "i4", "i5"]);
    assert_eq!(names(&got[1].0), vec!["i0", "i1", "i2"]);
}

#[test]
fn splits_with_crossval_zero_leaves_one_out() {
    let data = corpus(4);
    let got = splits(&data, Some(0));
    assert_eq!(got.len(), 4);
    for (i, (train, test)) in got.iter().enumerate() {
        assert_eq!(names_of(test), vec![format!("i{}", i)]);
        let want: Vec<String> =
            (0..4).filter(|j| *j != i).map(|j| format!("i{}", j)).collect();
        assert_eq!(names(train), want);
    }
}

#[test]
fn confusion_counts_by_actual_and_predicted() {
    // The tree predicts label 1 exactly where feature 0 is on.
    let tree = DTree::Branch {
        f: 0,
        pos: Box::new(DTree::Label(true)),
        neg: Box::new(DTree::Label(false)),
    };
    let test = vec![
        inst("a", 0, &[0]),
        inst("b", 0, &[1]),
        inst("c", 1, &[0]),
        inst("d", 1, &[1]),
        inst("e", 1, &[1]),
        inst("f", 0, &[0]),
        inst("g", 0, &[0]),
        inst("h", 1, &[1]),
        inst("i", 1, &[0]),
        inst("j", 0, &[0]),
    ];
    let stats = count_with_tree(&tree, &test);
    assert_eq!(stats, [4, 1, 2, 3]);
}

fn count_with_tree(tree: &DTree, test: &[Instance]) -> [usize; 4] {
    let mut stats = [0usize; 4];
    for c in test {
        let ix = 2 * c.label as usize + tree.classify(c) as usize;
        stats[ix] += 1;
    }
    stats
}

#[test]
fn confusion_of_a_model() {
    let data = vec![inst("p", 1, &[1, 1]), inst("n", 0, &[0, 0])];
    let refs: Vec<&Instance> = data.iter().collect();
    let model = knn::train(1, &refs);
    let test = vec![
        inst("a", 0, &[0, 0]),
        inst("b", 0, &[1, 1]),
        inst("c", 1, &[1, 1]),
        inst("d", 1, &[1, 1]),
        inst("e", 1, &[0, 0]),
        inst("f", 0, &[0, 0]),
        inst("g", 0, &[0, 0]),
    ];
    assert_eq!(confusion(&*model, &test), [3, 1, 1, 2]);
    assert_eq!(confusion(&*model, &[]), [0, 0, 0, 0]);
}
