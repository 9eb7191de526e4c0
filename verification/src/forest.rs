//! The forest: the feature-value index, the trees grown from it, and the
//! scores that the trees give.

use vstd::prelude::*;
use crate::feature::{Reading, Sample};
use crate::grow::{
    as_draws, fertile, grow, grow_tree, lemma_plant_count, lemma_plant_prefix,
    lemma_barren, lemma_plant_stays_unsound, lemma_plant_trim, plant, reach, regrow, spent,
};
use crate::index::{
    distinct_names, ingest, lemma_ingest_well_formed, well_formed, Column,
    FeatureNameToValuesMap,
};
use crate::randomness::Randomness;
use crate::score::{descend_from, landings, outcomes, Outcome, PathLength};
use crate::tree::{trees_of, NodeBox, NodeLink, NodeList, Tree, tree_of};

verus! {

/// All of a forest that is kept when the forest is written down: the depth
/// limit, the feature-value index and the trees.
#[derive(Debug, PartialEq, Eq)]
pub struct Snapshot {
    pub sub_sampling_size: u32,
    pub feature_values: FeatureNameToValuesMap,
    pub trees: NodeList,
}

/// Why a snapshot was not loaded.
#[derive(Clone, Copy, Debug, PartialEq, Eq)]
pub enum LoadError {
    /// Two columns of the index have one name.
    RepeatedFeature,
    /// A column's values do not ascend.
    UnsortedValues,
    /// A tree is taller than the depth limit allows, or than depths can
    /// be counted where there is no limit.
    TreeTooDeep,
}

impl Snapshot {
    /// Whether every tree is within reach of the depth limit.
    pub open spec fn within_reach(&self) -> bool {
        forall|i: int|
            0 <= i < self.trees@.len() ==> (#[trigger] self.trees@[i])@.within(
                reach(self.sub_sampling_size),
            )
    }

    /// What is wrong with the snapshot: the first of the faults that it
    /// has, or nothing.
    pub open spec fn fault(&self) -> Option<LoadError> {
        if !distinct_names(self.feature_values@) {
            Some(LoadError::RepeatedFeature)
        } else if !well_formed(self.feature_values@) {
            Some(LoadError::UnsortedValues)
        } else if !self.within_reach() {
            Some(LoadError::TreeTooDeep)
        } else {
            None
        }
    }

    /// Finds what is wrong with the snapshot.
    pub fn check(&self) -> (found: Option<LoadError>)
        ensures
            found == self.fault(),
    {
        if !self.feature_values.has_distinct_names() {
            return Some(LoadError::RepeatedFeature);
        }
        if !self.feature_values.has_ascending_values() {
            return Some(LoadError::UnsortedValues);
        }
        let bound = if self.sub_sampling_size > 0 {
            self.sub_sampling_size
        } else {
            u32::MAX
        };
        let mut i: usize = 0;
        while i < self.trees.len()
            invariant
                i <= self.trees.len(),
                well_formed(self.feature_values@),
                bound == reach(self.sub_sampling_size),
                forall|k: int| 0 <= k < i ==> (#[trigger] self.trees@[k])@.within(bound as nat),
            decreases self.trees.len() - i,
        {
            if !self.trees[i].fits_within(bound) {
                assert(!self.trees@[i as int]@.within(bound as nat));
                return Some(LoadError::TreeTooDeep);
            }
            i += 1;
        }
        None
    }
}

/// Isolation Forest implementation.
pub struct Forest {
    /// Lists each feature and maps it to all values in the training set.
    feature_values: FeatureNameToValuesMap,
    /// The decision trees that comprise the forest.
    trees: NodeList,
    /// The number of trees that one call of `create` tries to grow.
    num_trees_to_create: u32,
    /// The maximum depth of a tree; zero for no limit.
    sub_sampling_size: u32,
    rng: Randomness,
}

impl Forest {
    /// The feature-value index.
    pub closed spec fn index(&self) -> Seq<Column> {
        self.feature_values@
    }

    /// The trees, in the order in which they grew.
    pub closed spec fn ensemble(&self) -> Seq<Tree> {
        trees_of(self.trees@)
    }

    /// The number of trees that one call of `create` tries to grow.
    pub closed spec fn target(&self) -> u32 {
        self.num_trees_to_create
    }

    /// The depth limit of a tree; zero for none.
    pub closed spec fn limit(&self) -> u32 {
        self.sub_sampling_size
    }

    /// What holds of every forest: the index is well-formed, and every
    /// tree is within reach of the depth limit.
    pub open spec fn wf(&self) -> bool {
        &&& well_formed(self.index())
        &&& forall|i: int|
            0 <= i < self.ensemble().len() ==> (#[trigger] self.ensemble()[i]).within(
                reach(self.limit()),
            )
    }

    /// Where `sample` lands in each tree, tree by tree.
    pub open spec fn scores(&self, sample: Seq<Reading>) -> Seq<Seq<Outcome>> {
        Seq::new(self.ensemble().len(), |i: int| landings(self.ensemble()[i], sample))
    }

    /// Whether `snapshot` holds this forest's depth limit, index and trees.
    pub open spec fn captured_in(&self, snapshot: Snapshot) -> bool {
        &&& snapshot.sub_sampling_size == self.limit()
        &&& snapshot.feature_values@ == self.index()
        &&& trees_of(snapshot.trees@) == self.ensemble()
    }

    /// Whether `after` is this forest after the rounds of one `create` in
    /// which the draws came as `draws` says: the trees that the draws give
    /// stand behind those that were there, and nothing else has changed.
    pub open spec fn grown_into(&self, after: Forest, draws: Seq<int>) -> bool {
        let planting = plant(self.index(), self.limit(), self.target() as nat, draws);
        &&& planting.sound
        &&& planting.used == draws.len()
        &&& after.ensemble() == self.ensemble() + planting.trees
        &&& after.index() == self.index()
        &&& after.target() == self.target()
        &&& after.limit() == self.limit()
    }

    /// A forest without trees or training data, which draws from the
    /// thread's generator.
    pub fn new(num_trees_to_create: u32, sub_sampling_size: u32) -> (forest: Forest)
        ensures
            forest.wf(),
            forest.index() == Seq::<Column>::empty(),
            forest.ensemble() == Seq::<Tree>::empty(),
            forest.target() == num_trees_to_create,
            forest.limit() == sub_sampling_size,
    {
        let forest = Forest {
            num_trees_to_create,
            sub_sampling_size,
            trees: Forest::initialize_trees(),
            feature_values: Forest::create_feature_name_to_values_map(),
            rng: Randomness::thread(),
        };
        assert(forest.ensemble() =~= Seq::<Tree>::empty());
        forest
    }

    /// A forest without trees or training data, which draws from a
    /// generator started from `seed`.
    pub fn seeded(num_trees_to_create: u32, sub_sampling_size: u32, seed: u64) -> (forest: Forest)
        ensures
            forest.wf(),
            forest.index() == Seq::<Column>::empty(),
            forest.ensemble() == Seq::<Tree>::empty(),
            forest.target() == num_trees_to_create,
            forest.limit() == sub_sampling_size,
    {
        let forest = Forest {
            num_trees_to_create,
            sub_sampling_size,
            trees: Forest::initialize_trees(),
            feature_values: Forest::create_feature_name_to_values_map(),
            rng: Randomness::seeded(seed),
        };
        assert(forest.ensemble() =~= Seq::<Tree>::empty());
        forest
    }

    /// A list of no trees.
    pub fn initialize_trees() -> (trees: NodeList)
        ensures
            trees@.len() == 0,
    {
        let v: NodeList = vec![];
        v
    }

    /// An index of no features.
    pub fn create_feature_name_to_values_map() -> (index: FeatureNameToValuesMap)
        ensures
            index@ == Seq::<Column>::empty(),
    {
        let m = FeatureNameToValuesMap::new();
        m
    }

    /// Adds each of this sample's features to the list of known features
    /// with the corresponding set of values.
    pub fn add_sample(&mut self, sample: Sample)
        requires
            old(self).wf(),
        ensures
            final(self).wf(),
            final(self).index() == ingest(old(self).index(), sample@),
            final(self).ensemble() == old(self).ensemble(),
            final(self).target() == old(self).target(),
            final(self).limit() == old(self).limit(),
    {
        self.feature_values.add_all(&sample);
        proof {
            lemma_ingest_well_formed(old(self).index(), sample@);
            assert(self.ensemble() == old(self).ensemble());
        }
    }

    /// Creates and returns a single tree: the one that grows from
    /// `feature_values` at `depth` with the draws that come. There is no
    /// tree where nothing can grow, and there is one where every draw gives
    /// one; otherwise the draws decide.
    pub fn create_tree(&mut self, feature_values: FeatureNameToValuesMap, depth: u32) -> (link:
        NodeLink)
        ensures
            exists|draws: Seq<int>|
                {
                    let growth = #[trigger] grow(
                        feature_values@,
                        old(self).limit(),
                        depth as nat,
                        draws,
                    );
                    &&& growth.sound
                    &&& growth.used == draws.len()
                    &&& growth.tree == tree_of(link)
                },
            feature_values@.len() <= 1 || spent(old(self).limit(), depth as nat) ==> link is None,
            fertile(feature_values@) && !spent(old(self).limit(), depth as nat) ==> link is Some,
            final(self).index() == old(self).index(),
            final(self).ensemble() == old(self).ensemble(),
            final(self).target() == old(self).target(),
            final(self).limit() == old(self).limit(),
    {
        let (link, Ghost(draws)) = grow_tree(
            &mut self.rng,
            self.sub_sampling_size,
            &feature_values,
            depth,
        );
        assert(grow(feature_values@, old(self).limit(), depth as nat, draws).sound);
        link
    }

    /// Creates a forest containing the number of trees specified to the
    /// constructor. Trees that are there already stay, in front of the new
    /// ones; a round from which no tree grows adds none.
    pub fn create(&mut self)
        requires
            old(self).wf(),
        ensures
            final(self).wf(),
            final(self).index() == old(self).index(),
            final(self).target() == old(self).target(),
            final(self).limit() == old(self).limit(),
            exists|draws: Seq<int>| #[trigger] old(self).grown_into(*final(self), draws),
            final(self).ensemble().len() <= old(self).ensemble().len() + old(self).target(),
            fertile(old(self).index()) ==> final(self).ensemble().len() == old(
                self,
            ).ensemble().len() + old(self).target(),
            old(self).index().len() <= 1 ==> final(self).ensemble() == old(self).ensemble(),
    {
        let ghost index = self.index();
        let ghost limit = self.limit();
        let ghost draws: Seq<int> = Seq::empty();
        let mut i: u32 = 0;
        assert(self.ensemble() =~= old(self).ensemble() + plant(index, limit, 0, draws).trees);
        while i < self.num_trees_to_create
            invariant
                i <= self.target(),
                index == old(self).index(),
                limit == old(self).limit(),
                self.index() == index,
                self.limit() == limit,
                self.target() == old(self).target(),
                plant(index, limit, i as nat, draws).sound,
                plant(index, limit, i as nat, draws).used == draws.len(),
                self.ensemble() == old(self).ensemble() + plant(index, limit, i as nat, draws).trees,
            decreases self.target() - i,
        {
            let ghost trees_before = self.ensemble();
            let temp_feature_values = self.feature_values.clone();
            let tree = self.create_tree(temp_feature_values, 0);
            let ghost own = choose|own: Seq<int>|
                {
                    let growth = #[trigger] grow(index, limit, 0, own);
                    &&& growth.sound
                    &&& growth.used == own.len()
                    &&& growth.tree == tree_of(tree)
                };
            proof {
                lemma_plant_prefix(index, limit, i as nat, draws, own);
                assert((draws + own).skip(draws.len() as int) =~= own);
                draws = draws + own;
            }
            if tree.is_some() {
                let node = tree.unwrap();
                self.trees.push(node);
                assert(self.ensemble() =~= trees_before.push(node@));
            }
            i += 1;
            assert(self.ensemble() =~= old(self).ensemble() + plant(
                index,
                limit,
                i as nat,
                draws,
            ).trees);
        }
        proof {
            lemma_plant_count(index, limit, i as nat, draws);
            let planting = plant(index, limit, i as nat, draws);
            assert forall|k: int| 0 <= k < self.ensemble().len() implies (
            #[trigger] self.ensemble()[k]).within(reach(limit)) by {
                if k >= old(self).ensemble().len() {
                    assert(self.ensemble()[k] == planting.trees[k - old(self).ensemble().len()]);
                } else {
                    assert(self.ensemble()[k] == old(self).ensemble()[k]);
                }
            }
            if index.len() <= 1 {
                lemma_barren(index, limit, i as nat, draws);
            }
            assert(old(self).grown_into(*self, draws));
        }
    }

    /// Creates the trees that `create` creates when the draws come as
    /// `draws` says, and tells how many of the draws were taken. Where a
    /// draw is missing or out of its range, nothing is returned, and the
    /// forest stays as it was.
    pub fn create_with(&mut self, draws: &Vec<usize>) -> (taken: Option<usize>)
        requires
            old(self).wf(),
        ensures
            final(self).wf(),
            match taken {
                Some(used) => {
                    &&& used <= draws@.len()
                    &&& old(self).grown_into(*final(self), as_draws(draws@).take(used as int))
                    &&& plant(
                        old(self).index(),
                        old(self).limit(),
                        old(self).target() as nat,
                        as_draws(draws@),
                    ).sound
                },
                None => {
                    &&& !plant(
                        old(self).index(),
                        old(self).limit(),
                        old(self).target() as nat,
                        as_draws(draws@),
                    ).sound
                    &&& final(self).ensemble() == old(self).ensemble()
                    &&& final(self).index() == old(self).index()
                    &&& final(self).target() == old(self).target()
                    &&& final(self).limit() == old(self).limit()
                },
            },
    {
        let ghost index = self.index();
        let ghost limit = self.limit();
        let ghost script = as_draws(draws@);
        let mut grown: NodeList = Vec::new();
        let mut used: usize = 0;
        let mut i: u32 = 0;
        assert(trees_of(grown@) =~= plant(index, limit, 0, script).trees);
        while i < self.num_trees_to_create
            invariant
                i <= self.target(),
                *self == *old(self),
                self.wf(),
                index == self.index(),
                limit == self.limit(),
                script == as_draws(draws@),
                used <= draws.len(),
                plant(index, limit, i as nat, script).sound,
                plant(index, limit, i as nat, script).used == used,
                trees_of(grown@) == plant(index, limit, i as nat, script).trees,
            decreases self.target() - i,
        {
            let ghost trees_before = trees_of(grown@);
            let regrown = regrow(self.sub_sampling_size, &self.feature_values, 0, draws, used);
            match regrown {
                None => {
                    proof {
                        lemma_plant_stays_unsound(
                            index,
                            limit,
                            (i + 1) as nat,
                            (self.target() - i - 1) as nat,
                            script,
                        );
                    }
                    return None;
                },
                Some((tree, more)) => {
                    if tree.is_some() {
                        let node = tree.unwrap();
                        grown.push(node);
                        assert(trees_of(grown@) =~= trees_before.push(node@));
                    }
                    used = used + more;
                },
            }
            i += 1;
        }
        proof {
            let planting = plant(index, limit, i as nat, script);
            lemma_plant_count(index, limit, i as nat, script);
            lemma_plant_trim(index, limit, i as nat, script);
            assert(trees_of(self.trees@ + grown@) =~= self.ensemble() + planting.trees);
            assert forall|k: int| 0 <= k < (self.ensemble() + planting.trees).len() implies (
            #[trigger] (self.ensemble() + planting.trees)[k]).within(reach(limit)) by {
                if k >= self.ensemble().len() {
                    assert((self.ensemble() + planting.trees)[k] == planting.trees[k
                        - self.ensemble().len()]);
                } else {
                    assert((self.ensemble() + planting.trees)[k] == self.ensemble()[k]);
                }
            }
        }
        self.trees.append(&mut grown);
        Some(used)
    }

    /// Scores the sample against the specified tree: where the sample
    /// lands in it. The tree must be one whose depths can be counted, which
    /// `Node::fits_within` tells.
    pub fn score_tree(&self, sample: &Sample, tree: &NodeBox) -> (path: PathLength)
        requires
            tree@.within(u32::MAX as nat),
        ensures
            outcomes(path@) == landings(tree@, sample@),
    {
        let mut path: PathLength = Vec::new();
        descend_from(tree, sample, 0, 0, &mut path);
        assert(outcomes(path@) =~= landings(tree@, sample@));
        path
    }

    /// Scores the sample against the entire forest of trees: the path
    /// length in each tree, tree by tree. The score is their average, and
    /// zero where there is no tree.
    pub fn score(&self, sample: &Sample) -> (paths: Vec<PathLength>)
        requires
            self.wf(),
        ensures
            paths@.len() == self.ensemble().len(),
            forall|i: int|
                0 <= i < paths@.len() ==> outcomes(#[trigger] paths@[i]@) == self.scores(
                    sample@,
                )[i],
    {
        let mut paths: Vec<PathLength> = Vec::new();
        let mut i: usize = 0;
        while i < self.trees.len()
            invariant
                self.wf(),
                i <= self.trees.len(),
                paths@.len() == i,
                forall|k: int|
                    0 <= k < i ==> outcomes(#[trigger] paths@[k]@) == self.scores(sample@)[k],
            decreases self.trees.len() - i,
        {
            assert(self.ensemble()[i as int] == self.trees@[i as int]@);
            let path = self.score_tree(sample, &self.trees[i]);
            paths.push(path);
            i += 1;
        }
        paths
    }

    /// Scores the sample against the entire forest of trees, for a result
    /// that is normalized so that values close to 1 indicate anomalies and
    /// values close to zero indicate normal values. The normalized score is
    /// defined for two trees or more: the path lengths are returned then,
    /// and nothing otherwise, which stands for a score of zero.
    pub fn normalized_score(&self, sample: &Sample) -> (paths: Option<Vec<PathLength>>)
        requires
            self.wf(),
        ensures
            paths is Some <==> self.ensemble().len() >= 2,
            paths is Some ==> {
                &&& paths.unwrap()@.len() == self.ensemble().len()
                &&& forall|i: int|
                    0 <= i < paths.unwrap()@.len() ==> outcomes(#[trigger] paths.unwrap()@[i]@)
                        == self.scores(sample@)[i]
            },
    {
        if self.trees.len() < 2 {
            None
        } else {
            Some(self.score(sample))
        }
    }

    /// A copy of what is kept of the forest. It has no fault: `load` takes
    /// it.
    pub fn dump(&self) -> (snapshot: Snapshot)
        requires
            self.wf(),
        ensures
            self.captured_in(snapshot),
            snapshot.fault() is None,
    {
        let mut trees: NodeList = Vec::new();
        let mut i: usize = 0;
        while i < self.trees.len()
            invariant
                i <= self.trees.len(),
                trees@.len() == i,
                forall|k: int| 0 <= k < i ==> (#[trigger] trees@[k])@ == self.trees@[k]@,
            decreases self.trees.len() - i,
        {
            trees.push(Box::new((*self.trees[i]).clone()));
            i += 1;
        }
        assert(trees_of(trees@) =~= self.ensemble());
        let snapshot = Snapshot {
            sub_sampling_size: self.sub_sampling_size,
            feature_values: self.feature_values.clone(),
            trees,
        };
        proof {
            lemma_snapshot_sound(*self, snapshot);
        }
        snapshot
    }

    /// Puts the depth limit, the index and the trees of `snapshot` in the
    /// place of the forest's own. A snapshot with a fault is refused, and
    /// the forest stays as it was.
    pub fn load(&mut self, snapshot: Snapshot) -> (done: Result<(), LoadError>)
        ensures
            match done {
                Ok(()) => {
                    &&& snapshot.fault() is None
                    &&& final(self).captured_in(snapshot)
                    &&& final(self).target() == old(self).target()
                    &&& final(self).wf()
                },
                Err(error) => {
                    &&& snapshot.fault() == Some(error)
                    &&& final(self).index() == old(self).index()
                    &&& final(self).ensemble() == old(self).ensemble()
                    &&& final(self).target() == old(self).target()
                    &&& final(self).limit() == old(self).limit()
                },
            },
    {
        match snapshot.check() {
            Some(error) => Err(error),
            None => {
                self.sub_sampling_size = snapshot.sub_sampling_size;
                self.feature_values = snapshot.feature_values;
                self.trees = snapshot.trees;
                assert forall|i: int| 0 <= i < self.ensemble().len() implies (
                #[trigger] self.ensemble()[i]).within(reach(self.limit())) by {
                    assert(self.ensemble()[i] == snapshot.trees@[i]@);
                }
                Ok(())
            },
        }
    }
}

/// Two forests that start alike and take the same draws end alike: they
/// have the same trees, and every sample lands in the same places.
pub proof fn lemma_same_draws_same_forest(
    first: Forest,
    first_after: Forest,
    second: Forest,
    second_after: Forest,
    draws: Seq<int>,
    sample: Seq<Reading>,
)
    requires
        first.index() == second.index(),
        first.limit() == second.limit(),
        first.target() == second.target(),
        first.ensemble() == second.ensemble(),
        first.grown_into(first_after, draws),
        second.grown_into(second_after, draws),
    ensures
        first_after.ensemble() == second_after.ensemble(),
        first_after.scores(sample) == second_after.scores(sample),
{
}

/// The snapshot of a forest has no fault.
pub proof fn lemma_snapshot_sound(forest: Forest, snapshot: Snapshot)
    requires
        forest.wf(),
        forest.captured_in(snapshot),
    ensures
        snapshot.fault() is None,
{
    assert forall|i: int| 0 <= i < snapshot.trees@.len() implies (
    #[trigger] snapshot.trees@[i])@.within(reach(snapshot.sub_sampling_size)) by {
        assert(snapshot.trees@[i]@ == forest.ensemble()[i]);
    }
}

/// A forest that is loaded from the snapshot of another has that forest's
/// depth limit, index and trees, and every sample lands in it where it
/// lands in the other.
pub proof fn lemma_reloaded_scores_alike(
    forest: Forest,
    snapshot: Snapshot,
    reloaded: Forest,
    sample: Seq<Reading>,
)
    requires
        forest.captured_in(snapshot),
        reloaded.captured_in(snapshot),
    ensures
        reloaded.index() == forest.index(),
        reloaded.limit() == forest.limit(),
        reloaded.ensemble() == forest.ensemble(),
        reloaded.scores(sample) == forest.scores(sample),
{
}

/// A forest without trees gives no path length, whatever the sample.
pub proof fn lemma_no_trees_no_scores(forest: Forest, sample: Seq<Reading>)
    requires
        forest.ensemble().len() == 0,
    ensures
        forest.scores(sample) == Seq::<Seq<Outcome>>::empty(),
{
    assert(forest.scores(sample) =~= Seq::<Seq<Outcome>>::empty());
}

} // verus!
