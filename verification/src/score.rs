//! Path lengths: how far a sample falls through an isolation tree.
//!
//! At a split on a feature that the sample has, the sample goes down one
//! side: left if its value is below the split value, right otherwise. At a
//! split on a feature that the sample lacks it goes down both sides, each
//! with half the weight. So a sample ends in one or more landings, each at a
//! depth and with a weight of one over two to the number of halvings, and its
//! path length is the sum of the depths, each times its weight.

use vstd::prelude::*;
use vstd::arithmetic::power2::{lemma_pow2_unfold, pow2};
use crate::feature::{
    distinct_readings, lemma_lookup_ignores_order, lookup, same_readings, Reading, Sample,
};
use crate::tree::{tree_of, Node, NodeLink, Tree};

verus! {

/// One end of a sample's fall, as the contracts see a [`Landing`].
pub struct Outcome {
    pub depth: nat,
    pub halvings: nat,
}

/// One end of a sample's fall through a tree: the splits that routed the
/// sample on the way, and the splits at which it went both ways.
#[derive(Clone, Copy, Debug, PartialEq, Eq)]
pub struct Landing {
    pub depth: u32,
    pub halvings: u32,
}

/// The landings of one sample in one tree. The path length is the sum over
/// the landings of `depth / 2^halvings`.
pub type PathLength = Vec<Landing>;

impl View for Landing {
    type V = Outcome;

    open spec fn view(&self) -> Outcome {
        Outcome { depth: self.depth as nat, halvings: self.halvings as nat }
    }
}

/// The outcomes of a list of landings, in order.
pub open spec fn outcomes(landings: Seq<Landing>) -> Seq<Outcome> {
    Seq::new(landings.len(), |i: int| landings[i]@)
}

/// The outcomes `below`, seen from `depth` splits and `halvings` forks
/// further up.
pub open spec fn shifted(below: Seq<Outcome>, depth: nat, halvings: nat) -> Seq<Outcome> {
    Seq::new(
        below.len(),
        |i: int| Outcome { depth: below[i].depth + depth, halvings: below[i].halvings + halvings },
    )
}

/// Where `sample` lands in `tree`, from left to right.
pub open spec fn landings(tree: Tree, sample: Seq<Reading>) -> Seq<Outcome>
    decreases tree,
{
    match tree {
        Tree::Leaf => seq![Outcome { depth: 0, halvings: 0 }],
        Tree::Split { feature, value, left, right } => match lookup(sample, feature) {
            Some(v) => shifted(landings(if v < value { *left } else { *right }, sample), 1, 0),
            None => shifted(landings(*left, sample), 0, 1) + shifted(
                landings(*right, sample),
                0,
                1,
            ),
        },
    }
}

/// The weight of an outcome, times two to the power `bits`:
/// `2^(bits - halvings)`. An outcome of more than `bits` halvings counts for
/// nothing.
pub open spec fn share(outcome: Outcome, bits: nat) -> nat {
    if outcome.halvings <= bits {
        pow2((bits - outcome.halvings) as nat)
    } else {
        0
    }
}

/// The path length of `landed`, times two to the power `bits`: the sum over
/// the outcomes of `depth * 2^(bits - halvings)`. It is exact where no
/// outcome has more than `bits` halvings.
pub open spec fn scaled_length(landed: Seq<Outcome>, bits: nat) -> int
    decreases landed.len(),
{
    if landed.len() == 0 {
        0
    } else {
        scaled_length(landed.drop_last(), bits) + landed.last().depth * share(landed.last(), bits)
    }
}

/// The weights of `landed` together, times two to the power `bits`.
pub open spec fn scaled_weight(landed: Seq<Outcome>, bits: nat) -> int
    decreases landed.len(),
{
    if landed.len() == 0 {
        0
    } else {
        scaled_weight(landed.drop_last(), bits) + share(landed.last(), bits)
    }
}

/// Whether no outcome of `landed` has more than `bits` halvings.
pub open spec fn settled(landed: Seq<Outcome>, bits: nat) -> bool {
    forall|i: int| 0 <= i < landed.len() ==> (#[trigger] landed[i]).halvings <= bits
}

/// Appends to `out` the landings of `sample` below `link`, which was reached
/// after `depth` splits and `halvings` forks.
pub fn descend(link: &NodeLink, sample: &Sample, depth: u32, halvings: u32, out: &mut PathLength)
    requires
        depth + halvings + tree_of(*link).height() <= u32::MAX,
    ensures
        outcomes(final(out)@) == outcomes(old(out)@) + shifted(
            landings(tree_of(*link), sample@),
            depth as nat,
            halvings as nat,
        ),
    decreases *link,
{
    match link {
        None => {
            out.push(Landing { depth, halvings });
            assert(outcomes(out@) =~= outcomes(old(out)@) + shifted(
                landings(Tree::Leaf, sample@),
                depth as nat,
                halvings as nat,
            ));
        },
        Some(node) => {
            descend_from(node, sample, depth, halvings, out);
        },
    }
}

/// Appends to `out` the landings of `sample` from `node` on, which was
/// reached after `depth` splits and `halvings` forks.
pub fn descend_from(node: &Node, sample: &Sample, depth: u32, halvings: u32, out: &mut PathLength)
    requires
        depth + halvings + node@.height() <= u32::MAX,
    ensures
        outcomes(final(out)@) == outcomes(old(out)@) + shifted(
            landings(node@, sample@),
            depth as nat,
            halvings as nat,
        ),
    decreases *node,
{
    let ghost before = outcomes(out@);
    let ghost d = depth as nat;
    let ghost h = halvings as nat;
    match sample.value_of(&node.feature_name) {
        Some(v) => {
            let child = if v < node.split_value {
                &node.left
            } else {
                &node.right
            };
            descend(child, sample, depth + 1, halvings, out);
            let ghost below = landings(tree_of(*child), sample@);
            assert(shifted(shifted(below, 1, 0), d, h) =~= shifted(below, d + 1, h));
        },
        None => {
            descend(&node.left, sample, depth, halvings + 1, out);
            descend(&node.right, sample, depth, halvings + 1, out);
            let ghost lo = landings(tree_of(node.left), sample@);
            let ghost ro = landings(tree_of(node.right), sample@);
            assert(shifted(shifted(lo, 0, 1) + shifted(ro, 0, 1), d, h) =~= shifted(lo, d, h + 1)
                + shifted(ro, d, h + 1));
            assert(outcomes(out@) =~= before + (shifted(lo, d, h + 1) + shifted(ro, d, h + 1)));
        },
    }
}

/// A sample lands somewhere in every tree, no deeper than the tree is high,
/// and the splits and forks on its way are no more than the tree's height.
pub proof fn lemma_landings_bounded(tree: Tree, sample: Seq<Reading>)
    ensures
        landings(tree, sample).len() >= 1,
        forall|i: int|
            0 <= i < landings(tree, sample).len() ==> {
                let outcome = #[trigger] landings(tree, sample)[i];
                outcome.depth + outcome.halvings <= tree.height()
            },
        settled(landings(tree, sample), tree.height()),
    decreases tree,
{
    match tree {
        Tree::Leaf => {},
        Tree::Split { feature, value, left, right } => {
            lemma_landings_bounded(*left, sample);
            lemma_landings_bounded(*right, sample);
        },
    }
}

/// The order of a sample's features is irrelevant to where it lands, as long
/// as no feature name comes twice in it.
pub proof fn lemma_order_is_irrelevant(tree: Tree, first: Seq<Reading>, second: Seq<Reading>)
    requires
        distinct_readings(first),
        distinct_readings(second),
        same_readings(first, second),
    ensures
        landings(tree, first) == landings(tree, second),
    decreases tree,
{
    match tree {
        Tree::Leaf => {},
        Tree::Split { feature, value, left, right } => {
            lemma_lookup_ignores_order(first, second, feature);
            lemma_order_is_irrelevant(*left, first, second);
            lemma_order_is_irrelevant(*right, first, second);
        },
    }
}

/// Scaled lengths and weights add up over a join.
pub proof fn lemma_scaled_join(a: Seq<Outcome>, b: Seq<Outcome>, bits: nat)
    ensures
        scaled_length(a + b, bits) == scaled_length(a, bits) + scaled_length(b, bits),
        scaled_weight(a + b, bits) == scaled_weight(a, bits) + scaled_weight(b, bits),
    decreases b.len(),
{
    if b.len() == 0 {
        assert(a + b =~= a);
    } else {
        lemma_scaled_join(a, b.drop_last(), bits);
        assert((a + b).drop_last() =~= a + b.drop_last());
        assert((a + b).last() == b.last());
    }
}

/// One halving more on every outcome is made up for by one bit more.
pub proof fn lemma_scaled_halved(landed: Seq<Outcome>, bits: nat)
    ensures
        scaled_length(shifted(landed, 0, 1), bits + 1) == scaled_length(landed, bits),
        scaled_weight(shifted(landed, 0, 1), bits + 1) == scaled_weight(landed, bits),
    decreases landed.len(),
{
    if landed.len() > 0 {
        lemma_scaled_halved(landed.drop_last(), bits);
        assert(shifted(landed, 0, 1).drop_last() =~= shifted(landed.drop_last(), 0, 1));
    }
}

/// One split more on every outcome adds the weight to the length.
pub proof fn lemma_scaled_deepened(landed: Seq<Outcome>, bits: nat)
    ensures
        scaled_length(shifted(landed, 1, 0), bits) == scaled_length(landed, bits) + scaled_weight(
            landed,
            bits,
        ),
        scaled_weight(shifted(landed, 1, 0), bits) == scaled_weight(landed, bits),
    decreases landed.len(),
{
    if landed.len() > 0 {
        lemma_scaled_deepened(landed.drop_last(), bits);
        assert(shifted(landed, 1, 0).drop_last() =~= shifted(landed.drop_last(), 1, 0));
        let d = landed.last().depth;
        let w = share(landed.last(), bits);
        assert((d + 1) * w == d * w + w) by (nonlinear_arith);
    }
}

/// The weights of a sample's landings in a tree add up to one.
pub proof fn lemma_full_weight(tree: Tree, sample: Seq<Reading>, bits: nat)
    requires
        tree.height() <= bits,
    ensures
        scaled_weight(landings(tree, sample), bits) == pow2(bits),
    decreases tree,
{
    match tree {
        Tree::Leaf => {
            let only = seq![Outcome { depth: 0, halvings: 0 }];
            assert(landings(tree, sample) == only);
            assert(only.drop_last() =~= Seq::<Outcome>::empty());
            assert(scaled_weight(only.drop_last(), bits) == 0);
            assert(only.last().halvings == 0);
        },
        Tree::Split { feature, value, left, right } => {
            match lookup(sample, feature) {
                Some(v) => {
                    let child = if v < value {
                        *left
                    } else {
                        *right
                    };
                    lemma_full_weight(child, sample, bits);
                    lemma_scaled_deepened(landings(child, sample), bits);
                },
                None => {
                    let less = (bits - 1) as nat;
                    let lo = landings(*left, sample);
                    let ro = landings(*right, sample);
                    lemma_full_weight(*left, sample, less);
                    lemma_full_weight(*right, sample, less);
                    lemma_scaled_halved(lo, less);
                    lemma_scaled_halved(ro, less);
                    lemma_scaled_join(shifted(lo, 0, 1), shifted(ro, 0, 1), bits);
                    lemma_pow2_unfold(bits);
                },
            }
        },
    }
}

/// A tree that is no tree has path length zero.
pub proof fn lemma_leaf_length(sample: Seq<Reading>, bits: nat)
    ensures
        scaled_length(landings(Tree::Leaf, sample), bits) == 0,
{
    let only = seq![Outcome { depth: 0, halvings: 0 }];
    assert(landings(Tree::Leaf, sample) == only);
    assert(only.drop_last() =~= Seq::<Outcome>::empty());
    assert(scaled_length(only.drop_last(), bits) == 0);
    assert(only.last().depth == 0);
}

/// At a split on a feature that the sample has, the path length is one more
/// than the path length in the subtree on the sample's side: the left one
/// for a value below the split value, the right one otherwise.
pub proof fn lemma_found_feature_adds_one(tree: Tree, sample: Seq<Reading>, bits: nat)
    requires
        tree is Split,
        lookup(sample, tree->feature) is Some,
        tree.height() <= bits,
    ensures
        ({
            let side = if lookup(sample, tree->feature).unwrap() < tree->value {
                *tree->left
            } else {
                *tree->right
            };
            scaled_length(landings(tree, sample), bits) == pow2(bits) + scaled_length(
                landings(side, sample),
                bits,
            )
        }),
{
    let side = if lookup(sample, tree->feature).unwrap() < tree->value {
        *tree->left
    } else {
        *tree->right
    };
    lemma_full_weight(side, sample, bits);
    lemma_scaled_deepened(landings(side, sample), bits);
}

/// At a split on a feature that the sample lacks, the path length is the
/// average of the path lengths in the two subtrees: twice the one is the sum
/// of the others.
pub proof fn lemma_missing_feature_averages(tree: Tree, sample: Seq<Reading>, bits: nat)
    requires
        tree is Split,
        lookup(sample, tree->feature) is None,
    ensures
        landings(tree, sample) == shifted(landings(*tree->left, sample), 0, 1) + shifted(
            landings(*tree->right, sample),
            0,
            1,
        ),
        scaled_length(landings(tree, sample), bits + 1) == scaled_length(
            landings(*tree->left, sample),
            bits,
        ) + scaled_length(landings(*tree->right, sample), bits),
{
    let lo = landings(*tree->left, sample);
    let ro = landings(*tree->right, sample);
    lemma_scaled_halved(lo, bits);
    lemma_scaled_halved(ro, bits);
    lemma_scaled_join(shifted(lo, 0, 1), shifted(ro, 0, 1), bits + 1);
}

} // verus!
