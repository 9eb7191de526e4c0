use isolation_forest::{
    Feature, FeatureNameToValuesMap, FeatureValues, Forest, LoadError, Node, PathLength, Sample,
    Snapshot,
};
use rand::distributions::{Distribution, Uniform};
use rand::rngs::StdRng;
use rand::SeedableRng;

fn column(name: &str, values: &[u64]) -> FeatureValues {
    FeatureValues { name: name.to_string(), values: values.to_vec() }
}

fn index_of(columns: Vec<FeatureValues>) -> FeatureNameToValuesMap {
    FeatureNameToValuesMap { entries: columns }
}

fn node(name: &str, value: u64, left: Option<Node>, right: Option<Node>) -> Node {
    let mut node = Node::new(name, value);
    node.set_left_subtree(left.map(Box::new));
    node.set_right_subtree(right.map(Box::new));
    node
}

fn point(name: &str, x: u64, y: u64) -> Sample {
    let mut features = Vec::new();
    features.push(Feature::new("x", x));
    features.push(Feature::new("y", y));
    let mut sample = Sample::new(name);
    sample.add_features(&mut features);
    sample
}

/// Ten points with x and y below 25.
fn cluster() -> Vec<(u64, u64)> {
    vec![(3, 17), (12, 5), (24, 9), (7, 7), (18, 21), (0, 13), (9, 2), (15, 24), (21, 11), (5, 19)]
}

fn trained(mut forest: Forest) -> Forest {
    for (x, y) in cluster() {
        forest.add_sample(point("training", x, y));
    }
    forest.create();
    forest
}

fn length(path: &PathLength) -> f64 {
    path.iter().map(|l| l.depth as f64 * 0.5f64.powi(l.halvings as i32)).sum()
}

/// The average path length over the trees; zero without trees.
fn score(paths: &Vec<PathLength>) -> f64 {
    if paths.is_empty() {
        return 0.0;
    }
    paths.iter().map(length).sum::<f64>() / paths.len() as f64
}

fn h(i: usize) -> f64 {
    (i as f64).ln() + 0.5772156649
}

fn c(n: usize) -> f64 {
    2.0 * h(n - 1) - 2.0 * (n - 1) as f64 / n as f64
}

/// Two to the power of minus the average path length over c(n); zero for
/// fewer than two trees.
fn normalized(paths: &Option<Vec<PathLength>>) -> f64 {
    match paths {
        None => 0.0,
        Some(paths) => 2.0f64.powf(-score(paths) / c(paths.len())),
    }
}

#[test]
fn add_sample_fills_the_index() {
    let mut forest = Forest::new(10, 10);
    forest.add_sample(point("a", 5, 7));
    forest.add_sample(point("b", 3, 7));
    forest.add_sample(point("c", 5, 1));
    let mut third = Sample::new("d");
    third.add_feature(Feature::new("z", 4));
    third.add_feature(Feature::new("x", 9));
    third.add_feature(Feature::new("z", 2));
    forest.add_sample(third);
    forest.add_sample(Sample::new("no features"));
    let snapshot = forest.dump();
    assert_eq!(
        snapshot.feature_values,
        index_of(vec![column("x", &[3, 5, 5, 9]), column("y", &[1, 7, 7]), column("z", &[2, 4])])
    );
    assert!(snapshot.trees.is_empty());
    assert_eq!(snapshot.sub_sampling_size, 10);
}

#[test]
fn create_grows_as_many_trees_as_asked_for() {
    for count in [0u32, 1, 2, 10, 25] {
        let forest = trained(Forest::new(count, 10));
        assert_eq!(forest.dump().trees.len(), count as usize);
        let forest = trained(Forest::seeded(count, 0, 3));
        assert_eq!(forest.dump().trees.len(), count as usize);
    }
}

#[test]
fn create_leaves_the_index_alone() {
    let mut forest = Forest::new(5, 3);
    for (x, y) in cluster() {
        forest.add_sample(point("training", x, y));
    }
    let before = forest.dump();
    forest.create();
    let after = forest.dump();
    assert_eq!(after.feature_values, before.feature_values);
    assert_eq!(after.sub_sampling_size, 3);
}

#[test]
fn create_grows_nothing_from_one_feature() {
    let mut forest = Forest::new(10, 10);
    for value in 0..20 {
        let mut sample = Sample::new("training");
        sample.add_feature(Feature::new("x", value));
        forest.add_sample(sample);
    }
    forest.create();
    assert!(forest.dump().trees.is_empty());
    assert_eq!(forest.score(&point("s", 1, 2)), Vec::<PathLength>::new());
    assert_eq!(forest.normalized_score(&point("s", 1, 2)), None);
}

#[test]
fn create_grows_nothing_without_samples() {
    let mut forest = Forest::new(10, 10);
    forest.create();
    assert!(forest.dump().trees.is_empty());
}

#[test]
fn create_may_grow_fewer_trees_than_asked_for() {
    // One value for x: a round that draws x grows nothing.
    for seed in 0..10 {
        let mut forest = Forest::seeded(40, 10, seed);
        forest.add_sample(point("a", 1, 1));
        forest.add_sample({
            let mut sample = Sample::new("b");
            sample.add_feature(Feature::new("y", 2));
            sample
        });
        forest.create();
        let trees = forest.dump().trees;
        assert!(trees.len() < 40);
        assert!(trees.len() > 0);
        for tree in &trees {
            assert_eq!(tree.feature_name, "y");
        }
    }
}

#[test]
fn create_again_adds_to_the_trees() {
    let mut forest = trained(Forest::seeded(4, 10, 9));
    let first = forest.dump().trees;
    assert_eq!(first.len(), 4);
    forest.create();
    let both = forest.dump().trees;
    assert_eq!(both.len(), 8);
    assert_eq!(both[..4], first[..]);
}

#[test]
fn trees_keep_to_the_depth_limit() {
    for limit in 1..6u32 {
        let forest = trained(Forest::seeded(10, limit, 17));
        for tree in forest.dump().trees {
            assert!(tree.fits_within(limit));
        }
    }
}

#[test]
fn create_with_grows_the_trees_of_the_draws() {
    let mut forest = Forest::new(2, 2);
    for (x, y) in [(1, 10), (2, 20), (3, 30)] {
        forest.add_sample(point("training", x, y));
    }
    let mut fourth = Sample::new("training");
    fourth.add_feature(Feature::new("x", 4));
    forest.add_sample(fourth);
    let draws = vec![0, 2, 1, 1, 0, 1, 1, 1, 0, 3, 1, 1, 5];
    assert_eq!(forest.create_with(&draws), Some(12));
    let first = node("x", 3, Some(node("y", 20, None, None)), Some(node("x", 4, None, None)));
    let second = node("y", 20, Some(node("x", 4, None, None)), Some(node("y", 30, None, None)));
    assert_eq!(forest.dump().trees, vec![Box::new(first), Box::new(second)]);
}

#[test]
fn create_with_skips_a_round_that_grows_nothing() {
    let mut forest = Forest::new(3, 1);
    forest.add_sample(point("training", 1, 10));
    let mut second = Sample::new("training");
    second.add_feature(Feature::new("y", 20));
    forest.add_sample(second);
    assert_eq!(forest.create_with(&vec![1, 1, 0, 1, 0]), Some(5));
    assert_eq!(
        forest.dump().trees,
        vec![Box::new(node("y", 20, None, None)), Box::new(node("y", 10, None, None))]
    );
}

#[test]
fn create_with_refuses_a_bad_script_and_changes_nothing() {
    let mut forest = Forest::new(2, 1);
    for (x, y) in [(1, 10), (2, 20)] {
        forest.add_sample(point("training", x, y));
    }
    assert_eq!(forest.create_with(&vec![0, 1]), None);
    assert_eq!(forest.create_with(&vec![0, 1, 2, 0]), None);
    assert_eq!(forest.create_with(&vec![0, 1, 1, 2]), None);
    assert_eq!(forest.create_with(&vec![]), None);
    assert!(forest.dump().trees.is_empty());
    assert_eq!(forest.create_with(&vec![0, 1, 1, 0]), Some(4));
    assert_eq!(forest.dump().trees.len(), 2);
    assert_eq!(forest.create_with(&vec![0, 1, 1]), None);
    assert_eq!(forest.dump().trees.len(), 2);
}

#[test]
fn create_with_needs_no_draws_where_nothing_can_grow() {
    let mut none = Forest::new(0, 10);
    none.add_sample(point("training", 1, 10));
    assert_eq!(none.create_with(&vec![1, 2, 3]), Some(0));
    let mut one_feature = Forest::new(5, 10);
    let mut sample = Sample::new("training");
    sample.add_feature(Feature::new("x", 1));
    sample.add_feature(Feature::new("x", 2));
    one_feature.add_sample(sample);
    assert_eq!(one_feature.create_with(&vec![]), Some(0));
    assert!(one_feature.dump().trees.is_empty());
}

#[test]
fn the_same_draws_give_the_same_forest() {
    let draws = vec![1, 4, 0, 3, 0, 2, 1, 5, 0, 9, 1, 1];
    let mut one = Forest::new(2, 2);
    let mut other = Forest::seeded(2, 2, 77);
    for (x, y) in cluster() {
        one.add_sample(point("training", x, y));
        other.add_sample(point("training", x, y));
    }
    assert_eq!(one.create_with(&draws), other.create_with(&draws));
    assert_eq!(one.dump(), other.dump());
    assert_eq!(
        one.dump().trees,
        vec![
            Box::new(node("y", 11, Some(node("x", 7, None, None)), Some(node("x", 5, None, None)))),
            Box::new(node("y", 13, Some(node("x", 24, None, None)), Some(node("y", 17, None, None)))),
        ]
    );
    let sample = point("s", 12, 13);
    assert_eq!(one.score(&sample), other.score(&sample));
    assert_eq!(one.normalized_score(&sample), other.normalized_score(&sample));
}

#[test]
fn the_same_seed_gives_the_same_forest() {
    for seed in [0u64, 1, 99] {
        let one = trained(Forest::seeded(10, 10, seed));
        let other = trained(Forest::seeded(10, 10, seed));
        assert_eq!(one.dump(), other.dump());
        for (x, y) in [(12, 13), (60, 62), (0, 0)] {
            let sample = point("s", x, y);
            assert_eq!(one.score(&sample), other.score(&sample));
            assert_eq!(one.normalized_score(&sample), other.normalized_score(&sample));
        }
    }
    let one = trained(Forest::seeded(10, 10, 1));
    let other = trained(Forest::seeded(10, 10, 2));
    assert_ne!(one.dump().trees, other.dump().trees);
}

#[test]
fn score_gives_one_path_length_for_each_tree() {
    let mut forest = Forest::new(2, 2);
    for (x, y) in [(1, 10), (2, 20), (3, 30), (4, 40)] {
        forest.add_sample(point("training", x, y));
    }
    // x at 3 over y at 20 and x at 4; then y at 10 over nothing and y at 30.
    assert_eq!(forest.create_with(&vec![0, 2, 1, 1, 0, 1, 1, 0, 1, 1, 2]), Some(11));
    assert_eq!(
        forest.dump().trees,
        vec![
            Box::new(node("x", 3, Some(node("y", 20, None, None)), Some(node("x", 4, None, None)))),
            Box::new(node("y", 10, None, Some(node("y", 30, None, None)))),
        ]
    );
    let paths = forest.score(&point("s", 2, 25));
    assert_eq!(paths.len(), 2);
    assert_eq!(length(&paths[0]), 2.0);
    assert_eq!(length(&paths[1]), 2.0);
    let mut only_x = Sample::new("s");
    only_x.add_feature(Feature::new("x", 2));
    let paths = forest.score(&only_x);
    // First tree: left at x, then both ways at y. Second tree: both ways
    // at y; on the right both ways again.
    assert_eq!(length(&paths[0]), 1.0);
    assert_eq!(length(&paths[1]), 0.0);
    assert_eq!(score(&paths), 0.5);
    assert_eq!(forest.normalized_score(&only_x), Some(paths));
}

#[test]
fn normalized_score_needs_two_trees() {
    let one = trained(Forest::seeded(1, 10, 5));
    let sample = point("s", 12, 13);
    assert_eq!(one.score(&sample).len(), 1);
    assert_eq!(one.normalized_score(&sample), None);
    assert_eq!(normalized(&one.normalized_score(&sample)), 0.0);
    let two = trained(Forest::seeded(2, 10, 5));
    assert_eq!(two.normalized_score(&sample), Some(two.score(&sample)));
    let value = normalized(&two.normalized_score(&sample));
    assert!(value > 0.0 && value <= 1.0);
}

#[test]
fn the_expected_path_length_is_exact() {
    assert_eq!(c(2), 2.0 * 0.5772156649 - 1.0);
    assert!((c(10) - (2.0 * (9.0f64.ln() + 0.5772156649) - 1.8)).abs() < 1e-12);
    assert!((c(10) - 3.7488805).abs() < 1e-6);
    let paths = Some(vec![
        vec![isolation_forest::Landing { depth: 3, halvings: 0 }],
        vec![
            isolation_forest::Landing { depth: 1, halvings: 1 },
            isolation_forest::Landing { depth: 3, halvings: 1 },
        ],
    ]);
    // Average path length 2.5 over two trees.
    assert!((normalized(&paths) - 2.0f64.powf(-2.5 / c(2))).abs() < 1e-15);
}

#[test]
fn an_outlier_scores_higher_than_a_point_of_the_cluster() {
    let forest = trained(Forest::seeded(10, 10, 2024));
    let inside = normalized(&forest.normalized_score(&point("normal", 12, 13)));
    let outside = normalized(&forest.normalized_score(&point("outlier", 60, 62)));
    assert!(outside > inside);
    assert!(score(&forest.score(&point("outlier", 60, 62))) < score(&forest.score(&point("normal", 12, 13))));
}

#[test]
fn outliers_score_higher_on_average() {
    let forest = trained(Forest::seeded(10, 10, 7));
    let mut inside = 0.0;
    let mut outside = 0.0;
    for i in 0..25u64 {
        inside += normalized(&forest.normalized_score(&point("normal", i, 24 - i)));
        outside += normalized(&forest.normalized_score(&point("outlier", 45 + i, 69 - i)));
    }
    assert!(inside / 25.0 < outside / 25.0);
}

#[test]
fn random_test() {
    let num_tests = 10;
    let num_training_samples = 10;
    let mut forest = Forest::seeded(10, 10, 1);
    let mut rng = StdRng::seed_from_u64(1);
    let range1 = Uniform::from(0..25);
    let range2 = Uniform::from(15..45);

    // Training samples.
    for _i in 0..num_training_samples {
        let x = range1.sample(&mut rng) as u64;
        let y = range1.sample(&mut rng) as u64;
        forest.add_sample(point("training", x, y));
    }

    // Create the isolation forest.
    forest.create();

    // Test samples (similar to training samples).
    let mut avg_control_score = 0.0;
    let mut avg_control_normalized_score = 0.0;
    for _i in 0..num_tests {
        let x = range1.sample(&mut rng) as u64;
        let y = range1.sample(&mut rng) as u64;
        let sample = point("normal", x, y);
        avg_control_score += score(&forest.score(&sample));
        avg_control_normalized_score += normalized(&forest.normalized_score(&sample));
    }
    avg_control_score = avg_control_score / num_tests as f64;
    avg_control_normalized_score = avg_control_normalized_score / num_tests as f64;

    // Outlier samples (different from training samples).
    let mut avg_outlier_score = 0.0;
    let mut avg_outlier_normalized_score = 0.0;
    for _i in 0..num_tests {
        let x = range2.sample(&mut rng) as u64;
        let y = range2.sample(&mut rng) as u64;
        let sample = point("outlier", x, y);
        avg_outlier_score += score(&forest.score(&sample));
        avg_outlier_normalized_score += normalized(&forest.normalized_score(&sample));
    }
    avg_outlier_score = avg_outlier_score / num_tests as f64;
    avg_outlier_normalized_score = avg_outlier_normalized_score / num_tests as f64;

    assert!(avg_outlier_score < avg_control_score);
    assert!(avg_control_normalized_score < avg_outlier_normalized_score);
}

#[test]
fn a_loaded_forest_scores_as_the_one_dumped() {
    let forest = trained(Forest::seeded(10, 10, 31));
    let mut loaded = Forest::new(3, 0);
    assert_eq!(loaded.load(forest.dump()), Ok(()));
    assert_eq!(loaded.dump(), forest.dump());
    for (x, y) in [(12, 13), (60, 62), (0, 24)] {
        let sample = point("s", x, y);
        assert_eq!(loaded.score(&sample), forest.score(&sample));
        assert_eq!(loaded.normalized_score(&sample), forest.normalized_score(&sample));
        assert_eq!(
            normalized(&loaded.normalized_score(&sample)).to_bits(),
            normalized(&forest.normalized_score(&sample)).to_bits()
        );
    }
    let mut only_x = Sample::new("s");
    only_x.add_feature(Feature::new("x", 12));
    assert_eq!(loaded.score(&only_x), forest.score(&only_x));
}

#[test]
fn load_puts_the_snapshot_in_place_of_what_was_there() {
    let mut forest = trained(Forest::seeded(4, 10, 31));
    let snapshot = Snapshot {
        sub_sampling_size: 2,
        feature_values: index_of(vec![column("a", &[1, 2]), column("b", &[])]),
        trees: vec![Box::new(node("a", 2, Some(node("b", 7, None, None)), None))],
    };
    let copy = Snapshot {
        sub_sampling_size: 2,
        feature_values: snapshot.feature_values.clone(),
        trees: vec![Box::new(node("a", 2, Some(node("b", 7, None, None)), None))],
    };
    assert_eq!(forest.load(snapshot), Ok(()));
    assert_eq!(forest.dump(), copy);
    // The number of trees to create stays: four more, none deeper than two.
    forest.add_sample({
        let mut sample = Sample::new("more");
        sample.add_feature(Feature::new("b", 3));
        sample.add_feature(Feature::new("b", 4));
        sample
    });
    forest.create();
    let trees = forest.dump().trees;
    assert_eq!(trees.len(), 5);
    for tree in &trees {
        assert!(tree.fits_within(2));
    }
}

#[test]
fn load_refuses_a_repeated_feature() {
    let mut forest = trained(Forest::seeded(4, 10, 31));
    let before = forest.dump();
    let snapshot = Snapshot {
        sub_sampling_size: 10,
        feature_values: index_of(vec![column("a", &[1]), column("b", &[3, 2]), column("a", &[])]),
        trees: vec![],
    };
    assert_eq!(snapshot.check(), Some(LoadError::RepeatedFeature));
    assert_eq!(forest.load(snapshot), Err(LoadError::RepeatedFeature));
    assert_eq!(forest.dump(), before);
}

#[test]
fn load_refuses_unsorted_values() {
    let mut forest = trained(Forest::seeded(4, 10, 31));
    let before = forest.dump();
    let snapshot = Snapshot {
        sub_sampling_size: 1,
        feature_values: index_of(vec![column("a", &[1]), column("b", &[3, 2])]),
        trees: vec![Box::new(node("a", 2, Some(node("b", 7, None, None)), None))],
    };
    assert_eq!(snapshot.check(), Some(LoadError::UnsortedValues));
    assert_eq!(forest.load(snapshot), Err(LoadError::UnsortedValues));
    assert_eq!(forest.dump(), before);
}

#[test]
fn load_refuses_a_tree_beyond_the_depth_limit() {
    let mut forest = trained(Forest::seeded(4, 10, 31));
    let before = forest.dump();
    let snapshot = Snapshot {
        sub_sampling_size: 1,
        feature_values: index_of(vec![column("a", &[1]), column("b", &[2, 3])]),
        trees: vec![
            Box::new(node("a", 2, None, None)),
            Box::new(node("a", 2, Some(node("b", 7, None, None)), None)),
        ],
    };
    assert_eq!(snapshot.check(), Some(LoadError::TreeTooDeep));
    assert_eq!(forest.load(snapshot), Err(LoadError::TreeTooDeep));
    assert_eq!(forest.dump(), before);
    let unlimited = Snapshot {
        sub_sampling_size: 0,
        feature_values: index_of(vec![column("a", &[1]), column("b", &[2, 3])]),
        trees: vec![Box::new(node("a", 2, Some(node("b", 7, None, None)), None))],
    };
    assert_eq!(unlimited.check(), None);
    assert_eq!(forest.load(unlimited), Ok(()));
}

#[test]
fn the_snapshot_of_a_forest_has_no_fault() {
    assert_eq!(Forest::new(0, 0).dump().check(), None);
    assert_eq!(trained(Forest::new(10, 10)).dump().check(), None);
    assert_eq!(trained(Forest::seeded(10, 0, 4)).dump().check(), None);
    assert_eq!(trained(Forest::seeded(10, 1, 4)).dump().check(), None);
}
