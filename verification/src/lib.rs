//! Isolation Forest: anomaly detection by random partitioning.
//!
//! A forest is trained on samples, each a bag of named unsigned readings.
//! Every tree of the forest splits the training values of randomly chosen
//! features at randomly chosen positions; a sample that is isolated after few
//! splits is an anomaly.
//!
//! - [`feature`]: features and samples.
//! - [`index`]: the feature-value index that the samples fill.
//! - [`tree`]: the nodes of a tree, and the tree that the contracts see.
//! - [`randomness`]: the generators that the draws come from.
//! - [`grow`]: the tree that a list of draws gives, and how it is grown.
//! - [`score`]: where a sample lands in a tree, and its path length.
//! - [`forest`]: the forest itself: training, scoring, and snapshots.
//!
//! Scores are kept exact: a path length is a list of landings, each a depth
//! and a number of halvings, and no floating-point number is computed here.

pub mod feature;
pub mod forest;
pub mod grow;
pub mod index;
pub mod randomness;
pub mod score;
pub mod tree;

pub use feature::{Feature, FeatureList, Reading, Sample};
pub use forest::{Forest, LoadError, Snapshot};
pub use grow::{Growth, Planting};
pub use index::{Column, FeatureNameToValuesMap, FeatureValues, Uint64Vec};
pub use randomness::Randomness;
pub use score::{Landing, Outcome, PathLength};
pub use tree::{Node, NodeBox, NodeLink, NodeList, Tree};
