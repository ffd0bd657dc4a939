use fanova_core::{
    build_partition, marginal_raw_variance, quantify_importances, tree_variance, Error, Forest,
    Interval, Node, PartitionEntry, Rat, Tree,
};

fn r(n: i64, d: i64) -> Rat {
    Rat::new(n, d)
}

fn iv(lo: Rat, hi: Rat) -> Interval {
    Interval { lo, hi }
}

fn unit_square() -> Vec<Interval> {
    vec![iv(r(0, 1), r(1, 1)), iv(r(0, 1), r(1, 1))]
}

fn leaf(v: Rat) -> Node {
    Node::Leaf { value: v }
}

fn split(feature: usize, threshold: Rat, left: usize, right: usize) -> Node {
    Node::Split { feature, threshold, left, right }
}

/// A tree on the unit square splitting feature 0 at 1/2 into leaves 0 and 1.
fn single_split_tree() -> Tree {
    Tree { nodes: vec![split(0, r(1, 2), 1, 2), leaf(r(0, 1)), leaf(r(1, 1))] }
}

fn assert_val(x: &Rat, n: i64, d: i64) {
    assert_eq!(x.num() as i128 * d as i128, n as i128 * x.den() as i128);
}

#[test]
fn single_split_importances() {
    let forest = Forest { trees: vec![single_split_tree()], domain: unit_square() };
    let subsets = vec![vec![0usize], vec![1usize]];
    let out = quantify_importances(&forest, &subsets).unwrap();
    assert_eq!(out.len(), 2);
    assert_val(&out[0], 1, 1);
    assert_val(&out[1], 0, 1);
}

#[test]
fn single_split_total_variance() {
    let forest = Forest { trees: vec![single_split_tree()], domain: unit_square() };
    let part = build_partition(&forest.trees[0], &forest.domain).unwrap();
    let vt = tree_variance(&part, 2).unwrap().expect("tree is not constant");
    assert_val(&vt, 1, 4);
}

#[test]
fn constant_tree_yields_zero_importances() {
    let tree = Tree { nodes: vec![leaf(r(7, 2))] };
    let forest = Forest { trees: vec![tree], domain: unit_square() };
    let subsets = vec![vec![0usize], vec![1usize]];
    let out = quantify_importances(&forest, &subsets).unwrap();
    assert_val(&out[0], 0, 1);
    assert_val(&out[1], 0, 1);
}

#[test]
fn constant_tree_has_no_variance() {
    let tree = Tree { nodes: vec![leaf(r(7, 2))] };
    let domain = unit_square();
    let part = build_partition(&tree, &domain).unwrap();
    assert!(tree_variance(&part, 2).unwrap().is_none());
}

#[test]
fn all_leaf_forest_yields_zero_importances() {
    let forest = Forest {
        trees: vec![
            Tree { nodes: vec![leaf(r(1, 1))] },
            Tree { nodes: vec![leaf(r(-3, 1))] },
            Tree { nodes: vec![leaf(r(5, 4))] },
        ],
        domain: unit_square(),
    };
    let subsets = vec![vec![0usize], vec![1usize]];
    let out = quantify_importances(&forest, &subsets).unwrap();
    assert_val(&out[0], 0, 1);
    assert_val(&out[1], 0, 1);
}

#[test]
fn nested_split_importances() {
    // Split feature 0 at 1/2; the right branch splits feature 1 at 1/2.
    // Leaves 0, 1, 3: importances are exactly 2/3 and 1/6, leaving 1/6 of
    // the variance to the pairwise interaction; their sum stays below 1.
    let tree = Tree {
        nodes: vec![
            split(0, r(1, 2), 1, 2),
            leaf(r(0, 1)),
            split(1, r(1, 2), 3, 4),
            leaf(r(1, 1)),
            leaf(r(3, 1)),
        ],
    };
    let forest = Forest { trees: vec![tree], domain: unit_square() };
    let subsets = vec![vec![0usize], vec![1usize]];
    let out = quantify_importances(&forest, &subsets).unwrap();
    assert_val(&out[0], 2, 3);
    assert_val(&out[1], 1, 6);
    let sum = out[0].checked_add(&out[1]).unwrap();
    let one = Rat::one();
    assert!(sum.le(&one));
    assert_val(&sum, 5, 6);
}

#[test]
fn partition_volumes_sum_to_domain_volume() {
    let forest = Forest { trees: vec![single_split_tree()], domain: unit_square() };
    let part = build_partition(&forest.trees[0], &forest.domain).unwrap();
    assert_eq!(part.len(), 2);
    let mut total = Rat::zero();
    for e in &part {
        total = total.checked_add(&e.volume).unwrap();
    }
    let domain_vol = fanova_core::box_volume(&forest.domain).unwrap();
    assert!(total.eq_value(&domain_vol));
    assert_val(&total, 1, 1);
}

#[test]
fn decomposition_is_idempotent() {
    let forest = Forest { trees: vec![single_split_tree()], domain: unit_square() };
    let subsets = vec![vec![0usize], vec![1usize], vec![]];
    let a = quantify_importances(&forest, &subsets).unwrap();
    let b = quantify_importances(&forest, &subsets).unwrap();
    assert_eq!(a.len(), b.len());
    for (x, y) in a.iter().zip(b.iter()) {
        assert_eq!(x.num(), y.num());
        assert_eq!(x.den(), y.den());
    }
}

#[test]
fn empty_subset_importance_is_exactly_zero() {
    let forest = Forest { trees: vec![single_split_tree()], domain: unit_square() };
    let subsets = vec![vec![], vec![0usize]];
    let out = quantify_importances(&forest, &subsets).unwrap();
    assert_eq!(out[0].num(), 0);
    assert_val(&out[0], 0, 1);
}

#[test]
fn importances_lie_between_zero_and_one() {
    let tree = Tree {
        nodes: vec![
            split(0, r(1, 3), 1, 2),
            leaf(r(-5, 2)),
            split(1, r(3, 4), 3, 4),
            leaf(r(9, 1)),
            leaf(r(-1, 7)),
        ],
    };
    let forest = Forest { trees: vec![tree, single_split_tree()], domain: unit_square() };
    let subsets = vec![vec![0usize], vec![1usize]];
    let out = quantify_importances(&forest, &subsets).unwrap();
    let zero = Rat::zero();
    let one = Rat::one();
    for x in &out {
        assert!(zero.le(x));
        assert!(x.le(&one));
    }
}

#[test]
fn malformed_tree_is_rejected() {
    // The split points at itself: no child may come at or before its parent.
    let tree = Tree { nodes: vec![split(0, r(1, 2), 0, 1), leaf(r(1, 1))] };
    let forest = Forest { trees: vec![tree], domain: unit_square() };
    let subsets = vec![vec![0usize]];
    assert!(matches!(quantify_importances(&forest, &subsets), Err(Error::MalformedTree)));
}

#[test]
fn split_on_unknown_feature_is_rejected() {
    let tree = Tree { nodes: vec![split(2, r(1, 2), 1, 2), leaf(r(0, 1)), leaf(r(1, 1))] };
    let forest = Forest { trees: vec![tree], domain: unit_square() };
    let subsets = vec![vec![0usize]];
    assert!(matches!(quantify_importances(&forest, &subsets), Err(Error::MalformedTree)));
}

#[test]
fn pairwise_subset_is_rejected() {
    let forest = Forest { trees: vec![single_split_tree()], domain: unit_square() };
    let subsets = vec![vec![0usize, 1usize]];
    assert!(matches!(quantify_importances(&forest, &subsets), Err(Error::SubsetTooLarge)));
}

#[test]
fn corrupt_partition_violates_invariant() {
    // An entry whose rectangle has the wrong number of dimensions.
    let domain = unit_square();
    let es = vec![PartitionEntry { bounds: vec![], value: r(1, 1), volume: r(1, 1) }];
    assert!(matches!(marginal_raw_variance(&es, &domain, 0), Err(Error::PartitionInvariantViolated)));
}

#[test]
fn uncovered_cell_violates_invariant() {
    // Two entries covering only half of the domain on feature 0.
    let domain = unit_square();
    let half = PartitionEntry {
        bounds: vec![iv(r(0, 1), r(1, 2)), iv(r(0, 1), r(1, 1))],
        value: r(1, 1),
        volume: r(1, 2),
    };
    let es = vec![half];
    assert!(matches!(marginal_raw_variance(&es, &domain, 0), Err(Error::PartitionInvariantViolated)));
}

#[test]
fn oversized_exact_values_overflow() {
    // The domain volume exceeds the representable range.
    let big = 4_000_000_000i64;
    let domain = vec![iv(r(0, 1), r(big, 1)), iv(r(0, 1), r(big, 1))];
    let tree = Tree { nodes: vec![leaf(r(1, 1))] };
    let forest = Forest { trees: vec![tree], domain };
    let subsets = vec![vec![0usize]];
    assert!(matches!(quantify_importances(&forest, &subsets), Err(Error::NumericOverflow)));
}

#[test]
fn rational_arithmetic_is_exact_and_reduced() {
    let a = r(1, 2);
    let b = r(1, 3);
    let s = a.checked_add(&b).unwrap();
    assert_eq!((s.num(), s.den()), (5, 6));
    let p = a.checked_mul(&b).unwrap();
    assert_eq!((p.num(), p.den()), (1, 6));
    let q = a.checked_div(&b).unwrap();
    assert_eq!((q.num(), q.den()), (3, 2));
    let d = a.checked_sub(&b).unwrap();
    assert_eq!((d.num(), d.den()), (1, 6));
    let neg = r(-4, 8);
    let z = neg.checked_add(&r(1, 2)).unwrap();
    assert_eq!((z.num(), z.den()), (0, 1));
    assert!(r(2, 4).eq_value(&r(1, 2)));
    assert!(r(3, 2).clamp01().eq_value(&Rat::one()));
    assert!(r(-1, 2).clamp01().eq_value(&Rat::zero()));
}

#[test]
fn threshold_outside_range_drops_empty_child() {
    // The nested split's threshold lies outside the current rectangle on
    // feature 0, so one child is empty and only two entries remain.
    let tree = Tree {
        nodes: vec![
            split(0, r(1, 2), 1, 2),
            leaf(r(0, 1)),
            split(0, r(1, 4), 3, 4),
            leaf(r(1, 1)),
            leaf(r(2, 1)),
        ],
    };
    let domain = unit_square();
    let part = build_partition(&tree, &domain).unwrap();
    assert_eq!(part.len(), 2);
    let mut total = Rat::zero();
    for e in &part {
        total = total.checked_add(&e.volume).unwrap();
    }
    assert_val(&total, 1, 1);
}
