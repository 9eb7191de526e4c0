//! Growing an isolation tree from the feature-value index.
//!
//! A tree is grown by drawing, at every node, one of the index's features
//! and then one position among that feature's values. The values before the
//! position go to the left subtree and the others to the right one. Given
//! the draws, the tree is fixed: [`grow`] says which tree it is.

use vstd::prelude::*;
use crate::index::{with_values, Column, FeatureNameToValuesMap};
use crate::randomness::Randomness;
use crate::tree::{tree_of, Node, NodeLink, Tree};

verus! {

/// What growing a tree from a list of draws comes to.
pub struct Growth {
    /// The tree.
    pub tree: Tree,
    /// How many of the draws were taken, from the front.
    pub used: nat,
    /// Whether every draw that was taken was there to take and lay in the
    /// range that it was drawn from.
    pub sound: bool,
}

/// How many splits a way down a tree may have: the depth limit, where there
/// is one (`limit > 0`), and as many as a depth can count otherwise.
pub open spec fn reach(limit: u32) -> nat {
    if limit > 0 {
        limit as nat
    } else {
        u32::MAX as nat
    }
}

/// Whether no node may stand at `depth`.
pub open spec fn spent(limit: u32, depth: nat) -> bool {
    depth >= reach(limit)
}

/// The tree that grows from `index` at `depth` when the draws come as
/// `draws` says: at each node first the feature's position in the index,
/// then the split's position among the feature's values; a node's own draws
/// come before those of its left subtree, and those before the right one's.
///
/// Nothing grows from an index of fewer than two features, at a spent
/// depth, or from a feature with fewer than two values.
pub open spec fn grow(index: Seq<Column>, limit: u32, depth: nat, draws: Seq<int>) -> Growth
    decreases u32::MAX - depth,
{
    if index.len() <= 1 || spent(limit, depth) {
        Growth { tree: Tree::Leaf, used: 0, sound: true }
    } else if draws.len() < 1 || !(0 <= draws[0] < index.len()) {
        Growth { tree: Tree::Leaf, used: 0, sound: false }
    } else {
        let feature = draws[0];
        let values = index[feature].values;
        if values.len() <= 1 {
            Growth { tree: Tree::Leaf, used: 1, sound: true }
        } else if draws.len() < 2 || !(0 <= draws[1] < values.len()) {
            Growth { tree: Tree::Leaf, used: 1, sound: false }
        } else {
            let at = draws[1];
            let l = grow(
                with_values(index, feature, values.take(at)),
                limit,
                depth + 1,
                draws.skip(2),
            );
            let r = grow(
                with_values(index, feature, values.skip(at)),
                limit,
                depth + 1,
                draws.skip(2 + l.used as int),
            );
            Growth {
                tree: Tree::Split {
                    feature: index[feature].name,
                    value: values[at],
                    left: Box::new(l.tree),
                    right: Box::new(r.tree),
                },
                used: 2 + l.used + r.used,
                sound: l.sound && r.sound,
            }
        }
    }
}

/// What growing several trees from one list of draws comes to.
pub struct Planting {
    /// The trees that grew, in order. A round from which nothing grew
    /// leaves no trace here.
    pub trees: Seq<Tree>,
    /// How many of the draws were taken, from the front.
    pub used: nat,
    /// Whether every round's growth was sound.
    pub sound: bool,
}

/// The trees that `rounds` rounds of growing from `index` give when the
/// draws come as `draws` says, each round taking up where the one before it
/// stopped.
pub open spec fn plant(index: Seq<Column>, limit: u32, rounds: nat, draws: Seq<int>) -> Planting
    decreases rounds,
{
    if rounds == 0 {
        Planting { trees: Seq::empty(), used: 0, sound: true }
    } else {
        let before = plant(index, limit, (rounds - 1) as nat, draws);
        let last = grow(index, limit, 0, draws.skip(before.used as int));
        Planting {
            trees: if last.tree is Split {
                before.trees.push(last.tree)
            } else {
                before.trees
            },
            used: before.used + last.used,
            sound: before.sound && last.sound,
        }
    }
}

/// Whether a tree grows from `index` at the root whatever is drawn: there
/// are two features or more, and each has two values or more.
pub open spec fn fertile(index: Seq<Column>) -> bool {
    &&& index.len() >= 2
    &&& forall|i: int| 0 <= i < index.len() ==> (#[trigger] index[i]).values.len() >= 2
}

/// The draws of a list, as the numbers that [`grow`] reads.
pub open spec fn as_draws(list: Seq<usize>) -> Seq<int> {
    Seq::new(list.len(), |i: int| list[i] as int)
}

/// Grows one tree from `index`, drawing from `source`, and tells which
/// draws came. There is no tree where nothing can grow, and there is one
/// where every draw gives one; otherwise the draws decide.
pub fn grow_tree(
    source: &mut Randomness,
    limit: u32,
    index: &FeatureNameToValuesMap,
    depth: u32,
) -> (grown: (NodeLink, Ghost<Seq<int>>))
    ensures
        grow(index@, limit, depth as nat, grown.1@).sound,
        grow(index@, limit, depth as nat, grown.1@).used == grown.1@.len(),
        grow(index@, limit, depth as nat, grown.1@).tree == tree_of(grown.0),
        index@.len() <= 1 || spent(limit, depth as nat) ==> grown.0 is None,
        fertile(index@) && !spent(limit, depth as nat) ==> grown.0 is Some,
    decreases u32::MAX - depth,
{
    let names = index.len();
    if names <= 1 {
        return (None, Ghost(Seq::empty()));
    }
    if (limit > 0 && depth >= limit) || depth == u32::MAX {
        return (None, Ghost(Seq::empty()));
    }
    let feature = source.below(names);
    let ghost own = seq![feature as int];
    let count = index.entries[feature].values.len();
    assert(index.entries@[feature as int]@ == index@[feature as int]);
    if count <= 1 {
        return (None, Ghost(own));
    }
    let at = source.below(count);
    let split_value = index.entries[feature].values[at];
    let (left_index, right_index) = index.split(feature, at);
    let (left, Ghost(left_draws)) = grow_tree(source, limit, &left_index, depth + 1);
    let (right, Ghost(right_draws)) = grow_tree(source, limit, &right_index, depth + 1);
    let ghost draws = seq![feature as int, at as int] + left_draws + right_draws;
    proof {
        let d = (depth + 1) as nat;
        assert(draws.skip(2) =~= left_draws + right_draws);
        lemma_grow_prefix(left_index@, limit, d, left_draws, right_draws);
        assert(draws.skip(2 + left_draws.len() as int) =~= right_draws);
    }
    let node = Node {
        feature_name: index.entries[feature].name.clone(),
        split_value,
        left,
        right,
    };
    (Some(Box::new(node)), Ghost(draws))
}

/// Grows the tree that the draws of `draws` from position `from` on give,
/// and tells how many of them it took. Where a draw is missing or out of
/// its range, there is no such tree, and nothing is returned.
pub fn regrow(
    limit: u32,
    index: &FeatureNameToValuesMap,
    depth: u32,
    draws: &Vec<usize>,
    from: usize,
) -> (regrown: Option<(NodeLink, usize)>)
    requires
        from <= draws@.len(),
    ensures
        match regrown {
            Some((link, used)) => {
                let growth = grow(index@, limit, depth as nat, as_draws(draws@).skip(from as int));
                &&& growth.sound
                &&& growth.tree == tree_of(link)
                &&& growth.used == used
                &&& from + used <= draws@.len()
            },
            None => !grow(index@, limit, depth as nat, as_draws(draws@).skip(from as int)).sound,
        },
    decreases u32::MAX - depth,
{
    let ghost rest = as_draws(draws@).skip(from as int);
    let names = index.len();
    if names <= 1 {
        return Some((None, 0));
    }
    if (limit > 0 && depth >= limit) || depth == u32::MAX {
        return Some((None, 0));
    }
    if from >= draws.len() {
        return None;
    }
    let feature = draws[from];
    assert(rest[0] == feature);
    if feature >= names {
        return None;
    }
    let count = index.entries[feature].values.len();
    assert(index.entries@[feature as int]@ == index@[feature as int]);
    if count <= 1 {
        return Some((None, 1));
    }
    if from + 1 >= draws.len() {
        return None;
    }
    let at = draws[from + 1];
    assert(rest[1] == at);
    if at >= count {
        return None;
    }
    let split_value = index.entries[feature].values[at];
    let (left_index, right_index) = index.split(feature, at);
    assert(rest.skip(2) =~= as_draws(draws@).skip(from + 2));
    let (left, left_used) = match regrow(limit, &left_index, depth + 1, draws, from + 2) {
        Some(grown) => grown,
        None => {
            return None;
        },
    };
    assert(rest.skip(2 + left_used as int) =~= as_draws(draws@).skip(from + 2 + left_used));
    let (right, right_used) = match regrow(
        limit,
        &right_index,
        depth + 1,
        draws,
        from + 2 + left_used,
    ) {
        Some(grown) => grown,
        None => {
            return None;
        },
    };
    let node = Node {
        feature_name: index.entries[feature].name.clone(),
        split_value,
        left,
        right,
    };
    Some((Some(Box::new(node)), 2 + left_used + right_used))
}

/// A sound growth takes no more draws than there are.
pub proof fn lemma_grow_used(index: Seq<Column>, limit: u32, depth: nat, draws: Seq<int>)
    requires
        grow(index, limit, depth, draws).sound,
    ensures
        grow(index, limit, depth, draws).used <= draws.len(),
    decreases u32::MAX - depth,
{
    if index.len() <= 1 || spent(limit, depth) {
    } else {
        let feature = draws[0];
        let values = index[feature].values;
        if values.len() > 1 {
            let at = draws[1];
            let li = with_values(index, feature, values.take(at));
            let ri = with_values(index, feature, values.skip(at));
            let l = grow(li, limit, (depth + 1) as nat, draws.skip(2));
            lemma_grow_used(li, limit, (depth + 1) as nat, draws.skip(2));
            lemma_grow_used(ri, limit, (depth + 1) as nat, draws.skip(2 + l.used as int));
        }
    }
}

/// A sound growth reads only the draws that it takes: whatever comes behind
/// them changes nothing.
pub proof fn lemma_grow_prefix(
    index: Seq<Column>,
    limit: u32,
    depth: nat,
    draws: Seq<int>,
    more: Seq<int>,
)
    requires
        grow(index, limit, depth, draws).sound,
    ensures
        grow(index, limit, depth, draws + more) == grow(index, limit, depth, draws),
    decreases u32::MAX - depth,
{
    if index.len() <= 1 || spent(limit, depth) {
    } else {
        let all = draws + more;
        let feature = draws[0];
        assert(all[0] == feature);
        let values = index[feature].values;
        if values.len() > 1 {
            let at = draws[1];
            assert(all[1] == at);
            let li = with_values(index, feature, values.take(at));
            let ri = with_values(index, feature, values.skip(at));
            let l = grow(li, limit, (depth + 1) as nat, draws.skip(2));
            lemma_grow_used(li, limit, (depth + 1) as nat, draws.skip(2));
            lemma_grow_prefix(li, limit, (depth + 1) as nat, draws.skip(2), more);
            assert(all.skip(2) =~= draws.skip(2) + more);
            lemma_grow_prefix(ri, limit, (depth + 1) as nat, draws.skip(2 + l.used as int), more);
            assert(all.skip(2 + l.used as int) =~= draws.skip(2 + l.used as int) + more);
        }
    }
}

/// A sound growth comes out the same from the draws that it takes alone.
pub proof fn lemma_grow_trim(index: Seq<Column>, limit: u32, depth: nat, draws: Seq<int>)
    requires
        grow(index, limit, depth, draws).sound,
    ensures
        grow(index, limit, depth, draws).used <= draws.len(),
        grow(index, limit, depth, draws.take(grow(index, limit, depth, draws).used as int))
            == grow(index, limit, depth, draws),
    decreases u32::MAX - depth,
{
    lemma_grow_used(index, limit, depth, draws);
    let whole = grow(index, limit, depth, draws);
    let taken = draws.take(whole.used as int);
    if index.len() <= 1 || spent(limit, depth) {
    } else {
        let feature = draws[0];
        let values = index[feature].values;
        assert(taken[0] == feature);
        if values.len() > 1 {
            let at = draws[1];
            assert(taken[1] == at);
            let li = with_values(index, feature, values.take(at));
            let ri = with_values(index, feature, values.skip(at));
            let below = (depth + 1) as nat;
            let l = grow(li, limit, below, draws.skip(2));
            let r = grow(ri, limit, below, draws.skip(2 + l.used as int));
            lemma_grow_trim(li, limit, below, draws.skip(2));
            lemma_grow_trim(ri, limit, below, draws.skip(2 + l.used as int));
            let left_taken = draws.skip(2).take(l.used as int);
            let right_taken = draws.skip(2 + l.used as int).take(r.used as int);
            lemma_grow_prefix(li, limit, below, left_taken, right_taken);
            assert(taken.skip(2) =~= left_taken + right_taken);
            assert(taken.skip(2 + l.used as int) =~= right_taken);
        }
    }
}

/// A tree grown at `depth` ends within reach.
pub proof fn lemma_grow_height(index: Seq<Column>, limit: u32, depth: nat, draws: Seq<int>)
    ensures
        depth <= reach(limit) ==> depth + grow(index, limit, depth, draws).tree.height() <= reach(
            limit,
        ),
    decreases u32::MAX - depth,
{
    if index.len() <= 1 || spent(limit, depth) {
    } else if draws.len() < 1 || !(0 <= draws[0] < index.len()) {
    } else {
        let feature = draws[0];
        let values = index[feature].values;
        if values.len() <= 1 {
        } else if draws.len() < 2 || !(0 <= draws[1] < values.len()) {
        } else {
            let at = draws[1];
            let li = with_values(index, feature, values.take(at));
            let ri = with_values(index, feature, values.skip(at));
            let l = grow(li, limit, (depth + 1) as nat, draws.skip(2));
            lemma_grow_height(li, limit, (depth + 1) as nat, draws.skip(2));
            lemma_grow_height(ri, limit, (depth + 1) as nat, draws.skip(2 + l.used as int));
        }
    }
}

/// A sound planting takes no more draws than there are.
pub proof fn lemma_plant_used(index: Seq<Column>, limit: u32, rounds: nat, draws: Seq<int>)
    requires
        plant(index, limit, rounds, draws).sound,
    ensures
        plant(index, limit, rounds, draws).used <= draws.len(),
    decreases rounds,
{
    if rounds > 0 {
        let before = plant(index, limit, (rounds - 1) as nat, draws);
        lemma_plant_used(index, limit, (rounds - 1) as nat, draws);
        lemma_grow_used(index, limit, 0, draws.skip(before.used as int));
    }
}

/// A sound planting reads only the draws that it takes: whatever comes
/// behind them changes nothing.
pub proof fn lemma_plant_prefix(
    index: Seq<Column>,
    limit: u32,
    rounds: nat,
    draws: Seq<int>,
    more: Seq<int>,
)
    requires
        plant(index, limit, rounds, draws).sound,
    ensures
        plant(index, limit, rounds, draws + more) == plant(index, limit, rounds, draws),
    decreases rounds,
{
    if rounds > 0 {
        let before = plant(index, limit, (rounds - 1) as nat, draws);
        lemma_plant_prefix(index, limit, (rounds - 1) as nat, draws, more);
        lemma_plant_used(index, limit, rounds, draws);
        lemma_grow_prefix(index, limit, 0, draws.skip(before.used as int), more);
        assert((draws + more).skip(before.used as int) =~= draws.skip(before.used as int) + more);
    }
}

/// A sound planting comes out the same from the draws that it takes alone.
pub proof fn lemma_plant_trim(index: Seq<Column>, limit: u32, rounds: nat, draws: Seq<int>)
    requires
        plant(index, limit, rounds, draws).sound,
    ensures
        plant(index, limit, rounds, draws).used <= draws.len(),
        plant(index, limit, rounds, draws.take(plant(index, limit, rounds, draws).used as int))
            == plant(index, limit, rounds, draws),
    decreases rounds,
{
    lemma_plant_used(index, limit, rounds, draws);
    if rounds > 0 {
        let whole = plant(index, limit, rounds, draws);
        let taken = draws.take(whole.used as int);
        let fewer = (rounds - 1) as nat;
        let before = plant(index, limit, fewer, draws);
        let last = grow(index, limit, 0, draws.skip(before.used as int));
        lemma_plant_trim(index, limit, fewer, draws);
        lemma_grow_trim(index, limit, 0, draws.skip(before.used as int));
        let early = draws.take(before.used as int);
        let late = draws.skip(before.used as int).take(last.used as int);
        lemma_plant_prefix(index, limit, fewer, early, late);
        assert(taken =~= early + late);
        assert(taken.skip(before.used as int) =~= late);
    }
}

/// A planting that has gone wrong stays wrong, however many rounds follow.
pub proof fn lemma_plant_stays_unsound(
    index: Seq<Column>,
    limit: u32,
    rounds: nat,
    more: nat,
    draws: Seq<int>,
)
    requires
        !plant(index, limit, rounds, draws).sound,
    ensures
        !plant(index, limit, rounds + more, draws).sound,
    decreases more,
{
    if more > 0 {
        lemma_plant_stays_unsound(index, limit, rounds, (more - 1) as nat, draws);
    }
}

/// No round gives more than one tree, and none is taller than reach. From
/// a fertile index every sound round gives a tree.
pub proof fn lemma_plant_count(index: Seq<Column>, limit: u32, rounds: nat, draws: Seq<int>)
    ensures
        plant(index, limit, rounds, draws).trees.len() <= rounds,
        forall|i: int|
            0 <= i < plant(index, limit, rounds, draws).trees.len() ==> {
                let tree = #[trigger] plant(index, limit, rounds, draws).trees[i];
                &&& tree is Split
                &&& tree.within(reach(limit))
            },
        fertile(index) && plant(index, limit, rounds, draws).sound ==> plant(
            index,
            limit,
            rounds,
            draws,
        ).trees.len() == rounds,
    decreases rounds,
{
    if rounds > 0 {
        let before = plant(index, limit, (rounds - 1) as nat, draws);
        lemma_plant_count(index, limit, (rounds - 1) as nat, draws);
        lemma_grow_height(index, limit, 0, draws.skip(before.used as int));
    }
}

/// From an index of fewer than two features nothing grows.
pub proof fn lemma_barren(index: Seq<Column>, limit: u32, rounds: nat, draws: Seq<int>)
    requires
        index.len() <= 1,
    ensures
        plant(index, limit, rounds, draws).trees == Seq::<Tree>::empty(),
    decreases rounds,
{
    if rounds > 0 {
        lemma_barren(index, limit, (rounds - 1) as nat, draws);
    }
}

/// The trees that grow depend on the index, the depth limit and the draws
/// that are taken, and on nothing else: two lists of draws that agree on
/// the draws that a sound planting takes from the first give the same
/// trees.
pub proof fn lemma_same_draws_same_trees(
    index: Seq<Column>,
    limit: u32,
    rounds: nat,
    first: Seq<int>,
    second: Seq<int>,
)
    requires
        plant(index, limit, rounds, first).sound,
        plant(index, limit, rounds, first).used <= second.len(),
        second.take(plant(index, limit, rounds, first).used as int) == first.take(
            plant(index, limit, rounds, first).used as int,
        ),
    ensures
        plant(index, limit, rounds, second) == plant(index, limit, rounds, first),
{
    let used = plant(index, limit, rounds, first).used as int;
    lemma_plant_trim(index, limit, rounds, first);
    lemma_plant_prefix(index, limit, rounds, second.take(used), second.skip(used));
    assert(second.take(used) + second.skip(used) =~= second);
}

} // verus!
