//! Partition builder: walks a tree once and materializes, per leaf, the
//! axis-aligned hyperrectangle of the domain that reaches that leaf.
//!
//! At a split on feature `f` with threshold `t`, the left branch narrows
//! the rectangle's upper bound on `f` to `t` and the right branch narrows
//! the lower bound, with `t` first clipped into the rectangle's current
//! range on `f` (a threshold outside that range leaves one child empty,
//! and empty children's leaves are excluded). Each kept entry records the
//! rectangle, the leaf value, and the rectangle's exact volume.

use vstd::prelude::*;

use crate::model::{node_wf, tree_wf, Error, Interval, Node, QInterval, QNode, Tree};
use crate::rat::{
    qlt, qmax, qmin, qmulc, qone, qsubc, qwf, qzero, Q, Rat,
};

verus! {

/// One leaf's rectangle, value, and volume.
pub struct PartitionEntry {
    pub bounds: Vec<Interval>,
    pub value: Rat,
    pub volume: Rat,
}

pub ghost struct QEntry {
    pub bounds: Seq<QInterval>,
    pub value: Q,
    pub volume: Q,
}

impl View for PartitionEntry {
    type V = QEntry;

    open spec fn view(&self) -> QEntry {
        QEntry {
            bounds: self.bounds@.map(|i: int, iv: Interval| iv@),
            value: self.value@,
            volume: self.volume@,
        }
    }
}

pub open spec fn nodes_view(s: Seq<Node>) -> Seq<QNode> {
    s.map(|i: int, n: Node| n@)
}

pub open spec fn bounds_view(s: Seq<Interval>) -> Seq<QInterval> {
    s.map(|i: int, iv: Interval| iv@)
}

pub open spec fn entries_view(s: Seq<PartitionEntry>) -> Seq<QEntry> {
    s.map(|i: int, e: PartitionEntry| e@)
}

/// Both ends of one bound pair are well formed.
pub open spec fn bound_wf(iv: QInterval) -> bool {
    qwf(iv.lo) && qwf(iv.hi)
}

/// Both ends of every bound pair are well formed.
pub open spec fn box_wf(b: Seq<QInterval>) -> bool {
    forall|j: int| 0 <= j < b.len() ==> #[trigger] bound_wf(b[j])
}

/// Checked volume of a rectangle: the reduced exact product of its side
/// widths, or `None` if an intermediate no longer fits.
pub open spec fn qvolc(b: Seq<QInterval>, i: int) -> Option<Q>
    decreases b.len() - i,
{
    if i < 0 || i >= b.len() {
        Some(qone())
    } else {
        match qsubc(b[i].hi, b[i].lo) {
            None => None,
            Some(w) => match qvolc(b, i + 1) {
                None => None,
                Some(rest) => qmulc(w, rest),
            },
        }
    }
}

/// Threshold clipped into the rectangle's current range on its feature.
pub open spec fn qclip(iv: QInterval, t: Q) -> Q {
    qmax(iv.lo, qmin(t, iv.hi))
}

/// The partition a well-formed tree induces below node `idx` on rectangle
/// `b`: the ordered leaf entries of the left subtree, then the right's,
/// leaves of empty rectangles excluded.
pub open spec fn qpartition(nodes: Seq<QNode>, idx: int, b: Seq<QInterval>) -> Result<
    Seq<QEntry>,
    Error,
>
    decreases nodes.len() - idx,
{
    if idx < 0 || idx >= nodes.len() {
        Err(Error::MalformedTree)
    } else {
        match nodes[idx] {
            QNode::Leaf { value } => match qvolc(b, 0) {
                None => Err(Error::NumericOverflow),
                Some(v) => if qlt(qzero(), v) {
                    Ok(seq![QEntry { bounds: b, value, volume: v }])
                } else {
                    Ok(Seq::empty())
                },
            },
            QNode::Split { feature, threshold, left, right } => {
                if idx < left < nodes.len() && idx < right < nodes.len() && 0 <= feature
                    < b.len() {
                    let t = qclip(b[feature], threshold);
                    let bl = b.update(feature, QInterval { lo: b[feature].lo, hi: t });
                    let br = b.update(feature, QInterval { lo: t, hi: b[feature].hi });
                    match qpartition(nodes, left, bl) {
                        Err(e) => Err(e),
                        Ok(es_l) => match qpartition(nodes, right, br) {
                            Err(e) => Err(e),
                            Ok(es_r) => Ok(es_l + es_r),
                        },
                    }
                } else {
                    Err(Error::MalformedTree)
                }
            },
        }
    }
}

/// The partition of a whole tree over the domain rectangle.
pub open spec fn spec_partition(tree: Seq<QNode>, domain: Seq<QInterval>) -> Result<
    Seq<QEntry>,
    Error,
> {
    qpartition(tree, 0, domain)
}

fn copy_box(b: &Vec<Interval>) -> (r: Vec<Interval>)
    ensures
        r@ == b@,
{
    let mut out: Vec<Interval> = Vec::new();
    let n = b.len();
    let mut i: usize = 0;
    while i < n
        invariant
            n == b.len(),
            0 <= i <= n,
            out@ == b@.subrange(0, i as int),
        decreases n - i,
    {
        out.push(b[i]);
        assert(out@ =~= b@.subrange(0, i + 1 as int));
        i = i + 1;
    }
    assert(out@ =~= b@);
    out
}

fn box_with(b: &Vec<Interval>, f: usize, iv: Interval) -> (r: Vec<Interval>)
    requires
        f < b@.len(),
    ensures
        r@ == b@.update(f as int, iv),
{
    let mut out = copy_box(b);
    let n = out.len();
    let mut i: usize = 0;
    let mut res: Vec<Interval> = Vec::new();
    while i < n
        invariant
            n == out.len(),
            out@ == b@,
            0 <= i <= n,
            f < n,
            res@ == b@.update(f as int, iv).subrange(0, i as int),
        decreases n - i,
    {
        if i == f {
            res.push(iv);
        } else {
            res.push(out[i]);
        }
        assert(res@ =~= b@.update(f as int, iv).subrange(0, i + 1 as int));
        i = i + 1;
    }
    assert(res@ =~= b@.update(f as int, iv));
    res
}

/// Checked volume of a rectangle, mirroring `qvolc`.
fn box_volume_from(b: &Vec<Interval>, i: usize) -> (r: Option<Rat>)
    requires
        box_wf(bounds_view(b@)),
        i <= b@.len(),
    ensures
        match r {
            Some(v) => qvolc(bounds_view(b@), i as int) == Some(v@) && qwf(v@),
            None => qvolc(bounds_view(b@), i as int) is None,
        },
    decreases b@.len() - i,
{
    if i >= b.len() {
        let one = Rat::one();
        assert(qvolc(bounds_view(b@), i as int) == Some(qone()));
        return Some(one);
    }
    assert(bounds_view(b@)[i as int] == b@[i as int]@);
    assert(bound_wf(bounds_view(b@)[i as int]));
    let w = match b[i].hi.checked_sub(&b[i].lo) {
        Some(w) => w,
        None => {
            return None;
        },
    };
    let rest = match box_volume_from(b, i + 1) {
        Some(rest) => rest,
        None => {
            return None;
        },
    };
    w.checked_mul(&rest)
}

/// Checked volume of a rectangle (product of side widths).
pub fn box_volume(b: &Vec<Interval>) -> (r: Option<Rat>)
    requires
        box_wf(bounds_view(b@)),
    ensures
        match r {
            Some(v) => qvolc(bounds_view(b@), 0) == Some(v@) && qwf(v@),
            None => qvolc(bounds_view(b@), 0) is None,
        },
{
    box_volume_from(b, 0)
}

fn build_rects(nodes: &Vec<Node>, idx: usize, b: &Vec<Interval>) -> (r: Result<
    Vec<PartitionEntry>,
    Error,
>)
    requires
        tree_wf(nodes_view(nodes@), b@.len() as int),
        box_wf(bounds_view(b@)),
        idx < nodes@.len(),
    ensures
        match r {
            Ok(es) => qpartition(nodes_view(nodes@), idx as int, bounds_view(b@)) == Ok::<Seq<QEntry>, Error>(
                entries_view(es@),
            ),
            Err(e) => qpartition(nodes_view(nodes@), idx as int, bounds_view(b@)) == Err::<
                Seq<QEntry>,
                Error,
            >(e),
        },
    decreases nodes@.len() - idx,
{
    let ghost nv = nodes_view(nodes@);
    let ghost bv = bounds_view(b@);
    assert(nv[idx as int] == nodes@[idx as int]@);
    assert(node_wf(nv, idx as int, b@.len() as int));
    match nodes[idx] {
        Node::Leaf { value } => {
            match box_volume(b) {
                None => Err(Error::NumericOverflow),
                Some(v) => {
                    if Rat::zero().lt(&v) {
                        let entry = PartitionEntry { bounds: copy_box(b), value, volume: v };
                        let mut out: Vec<PartitionEntry> = Vec::new();
                        out.push(entry);
                        assert(entries_view(out@) =~= seq![
                            QEntry { bounds: bv, value: value@, volume: v@ },
                        ]);
                        Ok(out)
                    } else {
                        let out: Vec<PartitionEntry> = Vec::new();
                        assert(entries_view(out@) =~= Seq::<QEntry>::empty());
                        Ok(out)
                    }
                },
            }
        },
        Node::Split { feature, threshold, left, right } => {
            assert(bv[feature as int] == b@[feature as int]@);
            assert(bound_wf(bv[feature as int]));
            let fi = &b[feature];
            let t = fi.lo.max_val(&threshold.min_val(&fi.hi));
            assert(t@ == qclip(bv[feature as int], threshold@));
            let bl = box_with(b, feature, Interval { lo: fi.lo, hi: t });
            let br = box_with(b, feature, Interval { lo: t, hi: fi.hi });
            assert(bounds_view(bl@) =~= bv.update(
                feature as int,
                QInterval { lo: bv[feature as int].lo, hi: t@ },
            ));
            assert(bounds_view(br@) =~= bv.update(
                feature as int,
                QInterval { lo: t@, hi: bv[feature as int].hi },
            ));
            let mut es = match build_rects(nodes, left, &bl) {
                Ok(es) => es,
                Err(e) => {
                    return Err(e);
                },
            };
            let mut es_r = match build_rects(nodes, right, &br) {
                Ok(es) => es,
                Err(e) => {
                    return Err(e);
                },
            };
            let ghost gl = es@;
            let ghost gr = es_r@;
            es.append(&mut es_r);
            assert(entries_view(es@) =~= entries_view(gl) + entries_view(gr));
            Ok(es)
        },
    }
}

/// Build one tree's partition of the domain, per the contract of the
/// partition builder: ordered leaf entries with exact volumes, leaves of
/// empty rectangles excluded.
pub fn build_partition(tree: &Tree, domain: &Vec<Interval>) -> (r: Result<
    Vec<PartitionEntry>,
    Error,
>)
    requires
        tree_wf(tree@, domain@.len() as int),
        box_wf(bounds_view(domain@)),
    ensures
        match r {
            Ok(es) => spec_partition(tree@, bounds_view(domain@)) == Ok::<Seq<QEntry>, Error>(entries_view(es@)),
            Err(e) => spec_partition(tree@, bounds_view(domain@)) == Err::<Seq<QEntry>, Error>(e),
        },
{
    assert(nodes_view(tree.nodes@) =~= tree@);
    build_rects(&tree.nodes, 0, domain)
}

} // verus!
