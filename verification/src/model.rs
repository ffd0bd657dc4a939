//! Data model: trees, forests, domains, and the failure taxonomy.
//!
//! A tree is a flat arena of nodes; node 0 is the root, and every split
//! node's children sit strictly after it in the arena, which rules out
//! cycles and makes traversal terminate. A forest pairs an ordered
//! sequence of trees with the per-feature domain bounds they were fitted
//! on.

use vstd::prelude::*;

use crate::rat::{qle, qwf, Q, Rat};

verus! {

/// Why a decomposition call failed as a whole.
#[derive(Clone, Copy, Debug, PartialEq, Eq, Structural)]
pub enum Error {
    /// A tree's node graph has a dangling child index, a child that does
    /// not come after its parent in the arena, or a split on a feature
    /// outside the domain's dimensions.
    MalformedTree,
    /// A requested subset exceeds the supported interaction order.
    SubsetTooLarge,
    /// A partition handed to the marginal integrator does not cover the
    /// domain the way a leaf partition must.
    PartitionInvariantViolated,
    /// A computed partial variance came out below zero, which exact
    /// arithmetic only produces when an upstream invariant was broken.
    NegativeVariance,
    /// An exact intermediate value outgrew the numeric representation.
    NumericOverflow,
}

/// One node of a fitted decision tree.
#[derive(Clone, Copy, Debug)]
pub enum Node {
    /// Internal node: route by `feature` against `threshold`; points lower
    /// or equal go left, the rest go right.
    Split { feature: usize, threshold: Rat, left: usize, right: usize },
    /// Terminal node carrying the predicted value.
    Leaf { value: Rat },
}

pub ghost enum QNode {
    Split { feature: int, threshold: Q, left: int, right: int },
    Leaf { value: Q },
}

impl View for Node {
    type V = QNode;

    open spec fn view(&self) -> QNode {
        match *self {
            Node::Split { feature, threshold, left, right } => QNode::Split {
                feature: feature as int,
                threshold: threshold@,
                left: left as int,
                right: right as int,
            },
            Node::Leaf { value } => QNode::Leaf { value: value@ },
        }
    }
}

/// A fitted tree: node arena with the root at index 0.
#[derive(Clone, Debug)]
pub struct Tree {
    pub nodes: Vec<Node>,
}

impl View for Tree {
    type V = Seq<QNode>;

    open spec fn view(&self) -> Seq<QNode> {
        self.nodes@.map(|i: int, n: Node| n@)
    }
}

/// Per-feature `[lo, hi]` bounds.
#[derive(Clone, Copy, Debug)]
pub struct Interval {
    pub lo: Rat,
    pub hi: Rat,
}

pub ghost struct QInterval {
    pub lo: Q,
    pub hi: Q,
}

impl View for Interval {
    type V = QInterval;

    open spec fn view(&self) -> QInterval {
        QInterval { lo: self.lo@, hi: self.hi@ }
    }
}

/// A fitted forest: ordered trees plus the domain they were trained on.
#[derive(Clone, Debug)]
pub struct Forest {
    pub trees: Vec<Tree>,
    pub domain: Vec<Interval>,
}

impl Forest {
    pub open spec fn trees_view(&self) -> Seq<Seq<QNode>> {
        self.trees@.map(|i: int, t: Tree| t@)
    }

    pub open spec fn domain_view(&self) -> Seq<QInterval> {
        self.domain@.map(|i: int, iv: Interval| iv@)
    }
}

pub open spec fn interval_wf(iv: QInterval) -> bool {
    &&& qwf(iv.lo)
    &&& qwf(iv.hi)
    &&& qle(iv.lo, iv.hi)
}

/// Every bound pair is well formed and ordered.
pub open spec fn domain_wf(domain: Seq<QInterval>) -> bool {
    forall|i: int| 0 <= i < domain.len() ==> interval_wf(#[trigger] domain[i])
}

pub open spec fn node_wf(nodes: Seq<QNode>, i: int, dims: int) -> bool {
    match nodes[i] {
        QNode::Split { feature, threshold, left, right } => {
            &&& 0 <= feature < dims
            &&& qwf(threshold)
            &&& i < left < nodes.len()
            &&& i < right < nodes.len()
        },
        QNode::Leaf { value } => qwf(value),
    }
}

/// Structurally sound tree over `dims` features: nonempty arena, children
/// strictly after their parents, features within the domain.
pub open spec fn tree_wf(nodes: Seq<QNode>, dims: int) -> bool {
    &&& nodes.len() >= 1
    &&& forall|i: int| 0 <= i < nodes.len() ==> #[trigger] node_wf(nodes, i, dims)
}

pub open spec fn forest_wf(trees: Seq<Seq<QNode>>, domain: Seq<QInterval>) -> bool {
    &&& domain_wf(domain)
    &&& forall|t: int| 0 <= t < trees.len() ==> tree_wf(#[trigger] trees[t], domain.len() as int)
}

/// Check one tree's structure; decides `tree_wf` exactly.
pub fn check_tree(tree: &Tree, dims: usize) -> (b: bool)
    ensures
        b == tree_wf(tree@, dims as int),
{
    if tree.nodes.len() == 0 {
        return false;
    }
    let n = tree.nodes.len();
    let mut i: usize = 0;
    while i < n
        invariant
            n == tree.nodes.len(),
            0 <= i <= n,
            tree@.len() == n,
            forall|j: int| 0 <= j < i ==> #[trigger] node_wf(tree@, j, dims as int),
        decreases n - i,
    {
        let ok: bool = match tree.nodes[i] {
            Node::Split { feature, threshold, left, right } => {
                feature < dims && threshold.den() >= 1 && i < left && left < n && i < right
                    && right < n
            },
            Node::Leaf { value } => value.den() >= 1,
        };
        if !ok {
            assert(!node_wf(tree@, i as int, dims as int));
            return false;
        }
        assert(node_wf(tree@, i as int, dims as int));
        i = i + 1;
    }
    true
}

/// Check a domain's bound pairs; decides `domain_wf` exactly.
pub fn check_domain(domain: &Vec<Interval>) -> (b: bool)
    ensures
        b == domain_wf(domain@.map(|i: int, iv: Interval| iv@)),
{
    let ghost dv = domain@.map(|i: int, iv: Interval| iv@);
    let n = domain.len();
    let mut i: usize = 0;
    while i < n
        invariant
            n == domain.len(),
            0 <= i <= n,
            dv == domain@.map(|k: int, iv: Interval| iv@),
            forall|j: int| 0 <= j < i ==> interval_wf(#[trigger] dv[j]),
        decreases n - i,
    {
        let iv = &domain[i];
        let ok: bool = iv.lo.den() >= 1 && iv.hi.den() >= 1 && iv.lo.le(&iv.hi);
        if !ok {
            assert(!interval_wf(dv[i as int]));
            return false;
        }
        assert(interval_wf(dv[i as int]));
        i = i + 1;
    }
    true
}

/// Check a whole forest; decides `forest_wf` exactly.
pub fn check_forest(forest: &Forest) -> (b: bool)
    ensures
        b == forest_wf(forest.trees_view(), forest.domain_view()),
{
    if !check_domain(&forest.domain) {
        return false;
    }
    let n = forest.trees.len();
    let mut t: usize = 0;
    while t < n
        invariant
            n == forest.trees.len(),
            0 <= t <= n,
            domain_wf(forest.domain_view()),
            forall|j: int| 0 <= j < t ==> tree_wf(
                #[trigger] forest.trees_view()[j],
                forest.domain_view().len() as int,
            ),
        decreases n - t,
    {
        if !check_tree(&forest.trees[t], forest.domain.len()) {
            assert(forest.trees_view()[t as int] == forest.trees[t as int]@);
            return false;
        }
        assert(forest.trees_view()[t as int] == forest.trees[t as int]@);
        t = t + 1;
    }
    true
}

} // verus!
