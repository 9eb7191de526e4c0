use isolation_forest::{Feature, FeatureList, Node, Sample};

#[test]
fn feature_keeps_name_and_value() {
    let feature = Feature::new("x", 7);
    assert_eq!(feature.get_name(), "x");
    assert_eq!(feature.get_value(), 7);
    assert_eq!(feature.name, "x");
}

#[test]
fn feature_setters_change_one_field() {
    let mut feature = Feature::new("x", 7);
    feature.set_value(9);
    assert_eq!(feature.get_name(), "x");
    assert_eq!(feature.get_value(), 9);
    feature.set_name("y".to_string());
    assert_eq!(feature.get_name(), "y");
    assert_eq!(feature.get_value(), 9);
}

#[test]
fn feature_takes_any_name_and_value() {
    let empty = Feature::new("", 0);
    assert_eq!(empty.get_name(), "");
    assert_eq!(empty.get_value(), 0);
    let large = Feature::new("sepal length in cm", u64::MAX);
    assert_eq!(large.get_value(), u64::MAX);
}

#[test]
fn feature_clone_is_equal() {
    let feature = Feature::new("x", 7);
    assert_eq!(feature.clone(), feature);
}

#[test]
fn new_sample_has_no_features() {
    let sample = Sample::new("training");
    assert_eq!(sample.name, "training");
    assert!(sample.features().is_empty());
    assert!(Sample::create_feature_list().is_empty());
}

#[test]
fn add_features_moves_the_list_to_the_end() {
    let mut sample = Sample::new("s");
    sample.add_feature(Feature::new("a", 1));
    let mut more = FeatureList::new();
    more.push(Feature::new("b", 2));
    more.push(Feature::new("a", 3));
    sample.add_features(&mut more);
    assert!(more.is_empty());
    assert_eq!(
        sample.features(),
        vec![Feature::new("a", 1), Feature::new("b", 2), Feature::new("a", 3)]
    );
    assert_eq!(sample.name, "s");
}

#[test]
fn value_of_takes_the_first_feature_of_the_name() {
    let mut sample = Sample::new("s");
    sample.add_feature(Feature::new("a", 1));
    sample.add_feature(Feature::new("b", 2));
    sample.add_feature(Feature::new("a", 3));
    assert_eq!(sample.value_of(&"a".to_string()), Some(1));
    assert_eq!(sample.value_of(&"b".to_string()), Some(2));
    assert_eq!(sample.value_of(&"c".to_string()), None);
    assert_eq!(Sample::new("empty").value_of(&"a".to_string()), None);
}

#[test]
fn sample_clone_is_equal() {
    let mut sample = Sample::new("s");
    sample.add_feature(Feature::new("a", 1));
    assert_eq!(sample.clone(), sample);
}

#[test]
fn new_node_has_no_subtrees() {
    let node = Node::new("x", 10);
    assert_eq!(node.get_feature_name(), "x");
    assert_eq!(node.split_value, 10);
    assert_eq!(node.get_left_subtree(), None);
    assert_eq!(node.get_right_subtree(), None);
}

#[test]
fn node_subtrees_are_set_one_at_a_time() {
    let mut node = Node::new("x", 10);
    node.set_left_subtree(Some(Box::new(Node::new("y", 5))));
    assert_eq!(node.get_left_subtree(), Some(Box::new(Node::new("y", 5))));
    assert_eq!(node.get_right_subtree(), None);
    node.set_right_subtree(Some(Box::new(Node::new("z", 6))));
    assert_eq!(node.get_left_subtree(), Some(Box::new(Node::new("y", 5))));
    assert_eq!(node.get_right_subtree(), Some(Box::new(Node::new("z", 6))));
    node.set_left_subtree(None);
    assert_eq!(node.get_left_subtree(), None);
    assert_eq!(node.get_feature_name(), "x");
    assert_eq!(node.split_value, 10);
}

#[test]
fn node_clone_copies_the_whole_tree() {
    let mut inner = Node::new("y", 5);
    inner.set_right_subtree(Some(Box::new(Node::new("x", 1))));
    let mut node = Node::new("x", 10);
    node.set_left_subtree(Some(Box::new(inner)));
    assert_eq!(node.clone(), node);
}

#[test]
fn node_fits_within_its_height() {
    let mut inner = Node::new("y", 5);
    inner.set_right_subtree(Some(Box::new(Node::new("x", 1))));
    let mut node = Node::new("x", 10);
    node.set_left_subtree(Some(Box::new(inner)));
    assert!(node.fits_within(3));
    assert!(node.fits_within(u32::MAX));
    assert!(!node.fits_within(2));
    assert!(!node.fits_within(0));
    assert!(Node::new("x", 1).fits_within(1));
    assert!(!Node::new("x", 1).fits_within(0));
}
