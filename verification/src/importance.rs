//! Variance decomposition and forest-level aggregation.
//!
//! Per tree: total variance of the prediction function over the domain is
//! the volume-weighted variance of the leaf values; a tree with zero
//! total volume or zero total variance is constant and carries no
//! information. Per requested subset: the raw partial variance comes from
//! the marginal integrator (the empty subset contributes exactly zero),
//! the fraction of total variance is clamped into `[0, 1]`, and fractions
//! are averaged over the non-constant trees, in the caller's subset
//! order. The whole run is a function of its inputs: the contract of
//! `quantify_importances` pins the result, success or failure, exactly.

use vstd::prelude::*;

use crate::marginal::{
    check_partition_shape, marginal_raw_variance, qall_wf, qentry_shape, qmarginal_raw, qshape,
    rats_view,
};
use crate::model::{forest_wf, Error, Forest, Interval, QInterval, QNode, Tree};
use crate::partition::{
    bounds_view, box_wf, build_partition, entries_view, nodes_view, qpartition, PartitionEntry,
    QEntry,
};
use crate::rat::{
    qaddc, qclamp01, qdivc, qeq, qlt, qmulc, qsubc, qwf, qzero, Q, Rat,
};

verus! {

/// Volume totals of a partition: total volume, volume-weighted values,
/// volume-weighted squared values.
pub open spec fn qtreemoments(es: Seq<QEntry>, i: int, accw: Q, accm: Q, accs: Q) -> Option<
    (Q, Q, Q),
>
    decreases es.len() - i,
{
    if i < 0 || i >= es.len() {
        Some((accw, accm, accs))
    } else {
        match qaddc(accw, es[i].volume) {
            None => None,
            Some(w2) => match qmulc(es[i].volume, es[i].value) {
                None => None,
                Some(m1) => match qaddc(accm, m1) {
                    None => None,
                    Some(m2) => match qmulc(m1, es[i].value) {
                        None => None,
                        Some(s1) => match qaddc(accs, s1) {
                            None => None,
                            Some(s2) => qtreemoments(es, i + 1, w2, m2, s2),
                        },
                    },
                },
            },
        }
    }
}

/// Total variance of one tree's partition; `None` marks a constant tree
/// (zero total volume or zero variance), which is excluded from the
/// forest average.
pub open spec fn qtreevar(es: Seq<QEntry>, dims: int) -> Result<Option<Q>, Error> {
    if !qshape(es, dims) {
        Err(Error::PartitionInvariantViolated)
    } else {
        match qtreemoments(es, 0, qzero(), qzero(), qzero()) {
            None => Err(Error::NumericOverflow),
            Some((w, m, s)) => if qeq(w, qzero()) {
                Ok(None)
            } else {
                match qdivc(m, w) {
                    None => Err(Error::NumericOverflow),
                    Some(mu) => match qmulc(mu, mu) {
                        None => Err(Error::NumericOverflow),
                        Some(mu2) => match qdivc(s, w) {
                            None => Err(Error::NumericOverflow),
                            Some(sm) => match qsubc(sm, mu2) {
                                None => Err(Error::NumericOverflow),
                                Some(vt) => if qlt(vt, qzero()) {
                                    Err(Error::NegativeVariance)
                                } else if qeq(vt, qzero()) {
                                    Ok(None)
                                } else {
                                    Ok(Some(vt))
                                },
                            },
                        },
                    },
                }
            },
        }
    }
}

/// One tree's clamped variance fractions, one per requested subset in
/// order: exactly zero for the empty subset, else the clamped ratio of
/// the subset's raw partial variance to the tree's total variance.
pub open spec fn qtree_fracs(
    es: Seq<QEntry>,
    domain: Seq<QInterval>,
    subsets: Seq<Seq<int>>,
    vt: Q,
    j: int,
    acc: Seq<Q>,
) -> Result<Seq<Q>, Error>
    decreases subsets.len() - j,
{
    if j < 0 || j >= subsets.len() {
        Ok(acc)
    } else if subsets[j].len() == 0 {
        qtree_fracs(es, domain, subsets, vt, j + 1, acc.push(qzero()))
    } else {
        match qmarginal_raw(es, domain, subsets[j][0]) {
            Err(e) => Err(e),
            Ok(raw) => match qdivc(raw, vt) {
                None => Err(Error::NumericOverflow),
                Some(fr) => qtree_fracs(es, domain, subsets, vt, j + 1, acc.push(qclamp01(fr))),
            },
        }
    }
}

/// Elementwise checked addition of a tree's fractions into the running
/// per-subset totals.
pub open spec fn qacc_add(acc: Seq<Q>, inc: Seq<Q>, j: int, out: Seq<Q>) -> Option<Seq<Q>>
    decreases acc.len() - j,
{
    if j < 0 || j >= acc.len() {
        Some(out)
    } else {
        match qaddc(acc[j], inc[j]) {
            None => None,
            Some(v) => qacc_add(acc, inc, j + 1, out.push(v)),
        }
    }
}

/// Walk the forest: per non-constant tree, add its fractions into the
/// totals and count it; constant trees are skipped.
pub open spec fn qforest_scan(
    trees: Seq<Seq<QNode>>,
    domain: Seq<QInterval>,
    subsets: Seq<Seq<int>>,
    t: int,
    acc: Seq<Q>,
    cnt: int,
) -> Result<(Seq<Q>, int), Error>
    decreases trees.len() - t,
{
    if t < 0 || t >= trees.len() {
        Ok((acc, cnt))
    } else {
        match qpartition(trees[t], 0, domain) {
            Err(e) => Err(e),
            Ok(es) => match qtreevar(es, domain.len() as int) {
                Err(e) => Err(e),
                Ok(opt) => match opt {
                    None => qforest_scan(trees, domain, subsets, t + 1, acc, cnt),
                    Some(vt) => match qtree_fracs(es, domain, subsets, vt, 0, Seq::empty()) {
                        Err(e) => Err(e),
                        Ok(fr) => match qacc_add(acc, fr, 0, Seq::empty()) {
                            None => Err(Error::NumericOverflow),
                            Some(acc2) => qforest_scan(trees, domain, subsets, t + 1, acc2, cnt + 1),
                        },
                    },
                },
            },
        }
    }
}

/// Divide each per-subset total by the number of non-constant trees; a
/// forest with none yields all zeros.
pub open spec fn qfinalize(acc: Seq<Q>, cnt: int, j: int, out: Seq<Q>) -> Result<Seq<Q>, Error>
    decreases acc.len() - j,
{
    if j < 0 || j >= acc.len() {
        Ok(out)
    } else if cnt == 0 {
        qfinalize(acc, cnt, j + 1, out.push(qzero()))
    } else {
        match qdivc(acc[j], Q { n: cnt, d: 1 }) {
            None => Err(Error::NumericOverflow),
            Some(v) => qfinalize(acc, cnt, j + 1, out.push(v)),
        }
    }
}

pub open spec fn qzeros(n: int) -> Seq<Q> {
    Seq::new(n as nat, |i: int| qzero())
}

/// The whole decomposition as a function of the forest and the requested
/// subsets: importances in the callers' subset order, or the first
/// failure.
pub open spec fn spec_quantify(
    trees: Seq<Seq<QNode>>,
    domain: Seq<QInterval>,
    subsets: Seq<Seq<int>>,
) -> Result<Seq<Q>, Error> {
    if !forest_wf(trees, domain) {
        Err(Error::MalformedTree)
    } else if exists|j: int| 0 <= j < subsets.len() && #[trigger] subsets[j].len() > 1 {
        Err(Error::SubsetTooLarge)
    } else {
        match qforest_scan(trees, domain, subsets, 0, qzeros(subsets.len() as int), 0) {
            Err(e) => Err(e),
            Ok(p) => qfinalize(p.0, p.1, 0, Seq::empty()),
        }
    }
}

pub open spec fn trees_seq_view(ts: Seq<Tree>) -> Seq<Seq<QNode>> {
    ts.map(|i: int, t: Tree| t@)
}

pub open spec fn subsets_view(s: Seq<Vec<usize>>) -> Seq<Seq<int>> {
    s.map(|i: int, v: Vec<usize>| v@.map(|j: int, x: usize| x as int))
}

/// Every singleton subset names a feature inside the domain.
pub open spec fn subsets_in_range(subsets: Seq<Seq<int>>, dims: int) -> bool {
    forall|j: int|
        0 <= j < subsets.len() && (#[trigger] subsets[j]).len() == 1 ==> 0 <= subsets[j][0] < dims
}

/// Total variance of one tree's partition; decides `qtreevar` exactly.
pub fn tree_variance(es: &Vec<PartitionEntry>, dims: usize) -> (r: Result<Option<Rat>, Error>)
    ensures
        match r {
            Ok(opt) => match opt {
                Some(vt) => qtreevar(entries_view(es@), dims as int) == Ok::<Option<Q>, Error>(
                    Some(vt@),
                ) && qwf(vt@) && vt@.n != 0,
                None => qtreevar(entries_view(es@), dims as int) == Ok::<Option<Q>, Error>(None),
            },
            Err(e) => qtreevar(entries_view(es@), dims as int) == Err::<Option<Q>, Error>(e),
        },
{
    let ghost esv = entries_view(es@);
    if !check_partition_shape(es, dims) {
        return Err(Error::PartitionInvariantViolated);
    }
    let (w, m, s) = match tree_moments(es, 0, Rat::zero(), Rat::zero(), Rat::zero(), dims) {
        Some(p) => p,
        None => {
            return Err(Error::NumericOverflow);
        },
    };
    if w.is_zero() {
        return Ok(None);
    }
    assert(w@.n != 0) by {
        assert(!qeq(w@, qzero()));
    }
    let mu = match m.checked_div(&w) {
        Some(x) => x,
        None => {
            return Err(Error::NumericOverflow);
        },
    };
    let mu2 = match mu.checked_mul(&mu) {
        Some(x) => x,
        None => {
            return Err(Error::NumericOverflow);
        },
    };
    let sm = match s.checked_div(&w) {
        Some(x) => x,
        None => {
            return Err(Error::NumericOverflow);
        },
    };
    let vt = match sm.checked_sub(&mu2) {
        Some(x) => x,
        None => {
            return Err(Error::NumericOverflow);
        },
    };
    if vt.is_neg() {
        Err(Error::NegativeVariance)
    } else if vt.is_zero() {
        Ok(None)
    } else {
        assert(vt@.n != 0) by {
            assert(!qeq(vt@, qzero()));
        }
        Ok(Some(vt))
    }
}

fn tree_moments(
    es: &Vec<PartitionEntry>,
    i: usize,
    accw: Rat,
    accm: Rat,
    accs: Rat,
    dims: usize,
) -> (r: Option<(Rat, Rat, Rat)>)
    requires
        qshape(entries_view(es@), dims as int),
        qwf(accw@),
        qwf(accm@),
        qwf(accs@),
        i <= es@.len(),
    ensures
        match r {
            Some(p) => qtreemoments(entries_view(es@), i as int, accw@, accm@, accs@) == Some(
                (p.0@, p.1@, p.2@),
            ) && qwf(p.0@) && qwf(p.1@) && qwf(p.2@),
            None => qtreemoments(entries_view(es@), i as int, accw@, accm@, accs@) is None,
        },
    decreases es@.len() - i,
{
    if i >= es.len() {
        return Some((accw, accm, accs));
    }
    let ghost esv = entries_view(es@);
    assert(esv[i as int] == es@[i as int]@);
    assert(qentry_shape(esv[i as int], dims as int));
    let e = &es[i];
    let w2 = match accw.checked_add(&e.volume) {
        Some(x) => x,
        None => {
            return None;
        },
    };
    let m1 = match e.volume.checked_mul(&e.value) {
        Some(x) => x,
        None => {
            return None;
        },
    };
    let m2 = match accm.checked_add(&m1) {
        Some(x) => x,
        None => {
            return None;
        },
    };
    let s1 = match m1.checked_mul(&e.value) {
        Some(x) => x,
        None => {
            return None;
        },
    };
    let s2 = match accs.checked_add(&s1) {
        Some(x) => x,
        None => {
            return None;
        },
    };
    tree_moments(es, i + 1, w2, m2, s2, dims)
}

fn tree_fracs(
    es: &Vec<PartitionEntry>,
    domain: &Vec<Interval>,
    subsets: &Vec<Vec<usize>>,
    vt: &Rat,
    j: usize,
    acc: Vec<Rat>,
) -> (r: Result<Vec<Rat>, Error>)
    requires
        box_wf(bounds_view(domain@)),
        subsets_in_range(subsets_view(subsets@), domain@.len() as int),
        forall|k: int| 0 <= k < subsets@.len() ==> (#[trigger] subsets_view(subsets@)[k]).len()
            <= 1,
        qwf(vt@),
        vt@.n != 0,
        qall_wf(rats_view(acc@)),
        j <= subsets@.len(),
    ensures
        match r {
            Ok(v) => qtree_fracs(
                entries_view(es@),
                bounds_view(domain@),
                subsets_view(subsets@),
                vt@,
                j as int,
                rats_view(acc@),
            ) == Ok::<Seq<Q>, Error>(rats_view(v@)) && qall_wf(rats_view(v@)) && v@.len()
                == acc@.len() + subsets@.len() - j,
            Err(e) => qtree_fracs(
                entries_view(es@),
                bounds_view(domain@),
                subsets_view(subsets@),
                vt@,
                j as int,
                rats_view(acc@),
            ) == Err::<Seq<Q>, Error>(e),
        },
    decreases subsets@.len() - j,
{
    let ghost sv = subsets_view(subsets@);
    if j >= subsets.len() {
        return Ok(acc);
    }
    assert(sv[j as int] == subsets@[j as int]@.map(|k: int, x: usize| x as int));
    if subsets[j].len() == 0 {
        let mut acc2 = acc;
        let ghost av = rats_view(acc2@);
        acc2.push(Rat::zero());
        assert(rats_view(acc2@) =~= av.push(qzero()));
        assert(qall_wf(rats_view(acc2@))) by {
            assert(forall|k: int|
                0 <= k < av.len() ==> #[trigger] rats_view(acc2@)[k] == av[k]);
            assert(rats_view(acc2@)[av.len() as int] == qzero());
        }
        tree_fracs(es, domain, subsets, vt, j + 1, acc2)
    } else {
        let f = subsets[j][0];
        assert(sv[j as int][0] == f as int);
        assert(sv[j as int].len() == subsets@[j as int]@.len());
        assert((f as int) < domain@.len());
        let raw = match marginal_raw_variance(es, domain, f) {
            Ok(x) => x,
            Err(e) => {
                return Err(e);
            },
        };
        let fr = match raw.checked_div(vt) {
            Some(x) => x,
            None => {
                return Err(Error::NumericOverflow);
            },
        };
        let mut acc2 = acc;
        let ghost av = rats_view(acc2@);
        let cl = fr.clamp01();
        acc2.push(cl);
        assert(rats_view(acc2@) =~= av.push(cl@));
        assert(qall_wf(rats_view(acc2@))) by {
            assert(forall|k: int|
                0 <= k < av.len() ==> #[trigger] rats_view(acc2@)[k] == av[k]);
            assert(rats_view(acc2@)[av.len() as int] == cl@);
            assert(qwf(cl@));
        }
        tree_fracs(es, domain, subsets, vt, j + 1, acc2)
    }
}

fn acc_add(acc: &Vec<Rat>, inc: &Vec<Rat>, j: usize, out: Vec<Rat>) -> (r: Option<Vec<Rat>>)
    requires
        qall_wf(rats_view(acc@)),
        qall_wf(rats_view(inc@)),
        acc@.len() == inc@.len(),
        j <= acc@.len(),
        qall_wf(rats_view(out@)),
    ensures
        match r {
            Some(v) => qacc_add(rats_view(acc@), rats_view(inc@), j as int, rats_view(out@))
                == Some(rats_view(v@)) && qall_wf(rats_view(v@)) && v@.len() == out@.len()
                + acc@.len() - j,
            None => qacc_add(rats_view(acc@), rats_view(inc@), j as int, rats_view(out@)) is None,
        },
    decreases acc@.len() - j,
{
    if j >= acc.len() {
        return Some(out);
    }
    assert(rats_view(acc@)[j as int] == acc@[j as int]@);
    assert(rats_view(inc@)[j as int] == inc@[j as int]@);
    let v = match acc[j].checked_add(&inc[j]) {
        Some(x) => x,
        None => {
            return None;
        },
    };
    let mut out2 = out;
    let ghost ov = rats_view(out2@);
    out2.push(v);
    assert(rats_view(out2@) =~= ov.push(v@));
    assert(qall_wf(rats_view(out2@))) by {
        assert(forall|k: int| 0 <= k < ov.len() ==> #[trigger] rats_view(out2@)[k] == ov[k]);
        assert(rats_view(out2@)[ov.len() as int] == v@);
    }
    acc_add(acc, inc, j + 1, out2)
}

fn scan_trees(
    trees: &Vec<Tree>,
    domain: &Vec<Interval>,
    subsets: &Vec<Vec<usize>>,
    t: usize,
    acc: Vec<Rat>,
    cnt: i64,
) -> (r: Result<(Vec<Rat>, i64), Error>)
    requires
        forest_wf(trees_seq_view(trees@), bounds_view(domain@)),
        subsets_in_range(subsets_view(subsets@), domain@.len() as int),
        forall|k: int| 0 <= k < subsets@.len() ==> (#[trigger] subsets_view(subsets@)[k]).len()
            <= 1,
        qall_wf(rats_view(acc@)),
        acc@.len() == subsets@.len(),
        t <= trees@.len(),
        0 <= cnt,
        cnt as int + trees@.len() - t <= 0x7fff_ffff_ffff_ffff,
    ensures
        match r {
            Ok(p) => qforest_scan(
                trees_seq_view(trees@),
                bounds_view(domain@),
                subsets_view(subsets@),
                t as int,
                rats_view(acc@),
                cnt as int,
            ) == Ok::<(Seq<Q>, int), Error>((rats_view(p.0@), p.1 as int)) && qall_wf(
                rats_view(p.0@),
            ) && p.0@.len() == subsets@.len() && p.1 >= 0,
            Err(e) => qforest_scan(
                trees_seq_view(trees@),
                bounds_view(domain@),
                subsets_view(subsets@),
                t as int,
                rats_view(acc@),
                cnt as int,
            ) == Err::<(Seq<Q>, int), Error>(e),
        },
    decreases trees@.len() - t,
{
    let ghost tv = trees_seq_view(trees@);
    if t >= trees.len() {
        return Ok((acc, cnt));
    }
    assert(tv[t as int] == trees@[t as int]@);
    let es = match build_partition(&trees[t], domain) {
        Ok(x) => x,
        Err(e) => {
            return Err(e);
        },
    };
    let opt = match tree_variance(&es, domain.len()) {
        Ok(x) => x,
        Err(e) => {
            return Err(e);
        },
    };
    let vt = match opt {
        None => {
            return scan_trees(trees, domain, subsets, t + 1, acc, cnt);
        },
        Some(vt) => vt,
    };
    let empty: Vec<Rat> = Vec::new();
    assert(rats_view(empty@) =~= Seq::<Q>::empty());
    let fr = match tree_fracs(&es, domain, subsets, &vt, 0, empty) {
        Ok(x) => x,
        Err(e) => {
            return Err(e);
        },
    };
    let empty2: Vec<Rat> = Vec::new();
    assert(rats_view(empty2@) =~= Seq::<Q>::empty());
    let acc2 = match acc_add(&acc, &fr, 0, empty2) {
        Some(x) => x,
        None => {
            return Err(Error::NumericOverflow);
        },
    };
    scan_trees(trees, domain, subsets, t + 1, acc2, cnt + 1)
}

fn finalize(acc: &Vec<Rat>, cnt: i64, j: usize, out: Vec<Rat>) -> (r: Result<Vec<Rat>, Error>)
    requires
        qall_wf(rats_view(acc@)),
        cnt >= 0,
        j <= acc@.len(),
        qall_wf(rats_view(out@)),
    ensures
        match r {
            Ok(v) => qfinalize(rats_view(acc@), cnt as int, j as int, rats_view(out@)) == Ok::<
                Seq<Q>,
                Error,
            >(rats_view(v@)) && qall_wf(rats_view(v@)) && v@.len() == out@.len() + acc@.len() - j,
            Err(e) => qfinalize(rats_view(acc@), cnt as int, j as int, rats_view(out@)) == Err::<
                Seq<Q>,
                Error,
            >(e),
        },
    decreases acc@.len() - j,
{
    if j >= acc.len() {
        return Ok(out);
    }
    assert(rats_view(acc@)[j as int] == acc@[j as int]@);
    let v: Rat = if cnt == 0 {
        Rat::zero()
    } else {
        let c = Rat::from_int(cnt);
        match acc[j].checked_div(&c) {
            Some(x) => x,
            None => {
                return Err(Error::NumericOverflow);
            },
        }
    };
    let mut out2 = out;
    let ghost ov = rats_view(out2@);
    out2.push(v);
    assert(rats_view(out2@) =~= ov.push(v@));
    assert(qall_wf(rats_view(out2@))) by {
        assert(forall|k: int| 0 <= k < ov.len() ==> #[trigger] rats_view(out2@)[k] == ov[k]);
        assert(rats_view(out2@)[ov.len() as int] == v@);
    }
    finalize(acc, cnt, j + 1, out2)
}

fn make_zeros(n: usize) -> (r: Vec<Rat>)
    ensures
        rats_view(r@) == qzeros(n as int),
        qall_wf(rats_view(r@)),
        r@.len() == n,
{
    let mut out: Vec<Rat> = Vec::new();
    let mut i: usize = 0;
    while i < n
        invariant
            0 <= i <= n,
            out@.len() == i,
            forall|k: int| 0 <= k < i ==> #[trigger] rats_view(out@)[k] == qzero(),
        decreases n - i,
    {
        let ghost prev = out@;
        out.push(Rat::zero());
        assert forall|k: int| 0 <= k < i + 1 implies #[trigger] rats_view(out@)[k] == qzero() by {
            if k < i {
                assert(rats_view(out@)[k] == prev[k]@);
                assert(rats_view(prev)[k] == prev[k]@);
            } else {
                assert(rats_view(out@)[k] == qzero());
            }
        }
        i = i + 1;
    }
    assert(rats_view(out@) =~= qzeros(n as int));
    out
}

/// Decompose the forest's prediction variance over the requested feature
/// subsets. Returns one importance per subset, in the request's order;
/// fails as a whole on a malformed tree, a subset beyond the supported
/// interaction order, a violated partition invariant, a negative partial
/// variance, or an exact value outgrowing the representation — exactly as
/// `spec_quantify` says.
#[verifier::loop_isolation(false)]
pub fn quantify_importances(forest: &Forest, subsets: &Vec<Vec<usize>>) -> (r: Result<
    Vec<Rat>,
    Error,
>)
    requires
        subsets_in_range(subsets_view(subsets@), forest.domain@.len() as int),
        forest.trees@.len() <= 0x7fff_ffff_ffff_fffe,
    ensures
        match r {
            Ok(v) => spec_quantify(
                forest.trees_view(),
                forest.domain_view(),
                subsets_view(subsets@),
            ) == Ok::<Seq<Q>, Error>(rats_view(v@)) && v@.len() == subsets@.len(),
            Err(e) => spec_quantify(
                forest.trees_view(),
                forest.domain_view(),
                subsets_view(subsets@),
            ) == Err::<Seq<Q>, Error>(e),
        },
{
    let ghost tv = forest.trees_view();
    let ghost dv = forest.domain_view();
    let ghost sv = subsets_view(subsets@);
    if !crate::model::check_forest(forest) {
        return Err(Error::MalformedTree);
    }
    let ns = subsets.len();
    let mut j: usize = 0;
    while j < ns
        invariant
            ns == subsets@.len(),
            0 <= j <= ns,
            sv == subsets_view(subsets@),
            forall|k: int| 0 <= k < j ==> (#[trigger] sv[k]).len() <= 1,
        decreases ns - j,
    {
        assert(sv[j as int] == subsets@[j as int]@.map(|k: int, x: usize| x as int));
        if subsets[j].len() > 1 {
            assert(sv[j as int].len() > 1);
            assert(exists|k: int| 0 <= k < sv.len() && #[trigger] sv[k].len() > 1);
            return Err(Error::SubsetTooLarge);
        }
        assert(sv[j as int].len() <= 1);
        j = j + 1;
    }
    assert(!(exists|k: int| 0 <= k < sv.len() && #[trigger] sv[k].len() > 1));
    assert(trees_seq_view(forest.trees@) =~= tv);
    assert(bounds_view(forest.domain@) =~= dv);
    let zeros = make_zeros(subsets.len());
    match scan_trees(&forest.trees, &forest.domain, subsets, 0, zeros, 0) {
        Err(e) => Err(e),
        Ok((acc, cnt)) => {
            let empty: Vec<Rat> = Vec::new();
            assert(rats_view(empty@) =~= Seq::<Q>::empty());
            finalize(&acc, cnt, 0, empty)
        },
    }
}

} // verus!
