//! Marginal integrator for single-feature subsets.
//!
//! Projects a partition onto one feature, forms the grid of distinct
//! boundary coordinates on that axis (domain ends included), and for each
//! grid cell aggregates the volume-weighted average of every entry whose
//! projection covers the cell, weighted by the entry's volume along the
//! complement dimensions. Each cell's weights must sum exactly to the
//! complement sub-domain volume, else the partition invariant is
//! violated. The marginal's variance over the feature's range is returned
//! as the raw partial variance of that feature.

use vstd::prelude::*;

use crate::model::{Error, Interval, QInterval};
use crate::partition::{bound_wf, bounds_view, box_wf, entries_view, PartitionEntry, QEntry};
use crate::rat::{
    qaddc, qdivc, qeq, qle, qlt, qmulc, qone, qsubc, qwf, qzero, Q, Rat,
};

verus! {

pub open spec fn rats_view(s: Seq<Rat>) -> Seq<Q> {
    s.map(|i: int, r: Rat| r@)
}

pub open spec fn qall_wf(s: Seq<Q>) -> bool {
    forall|i: int| 0 <= i < s.len() ==> qwf(#[trigger] s[i])
}

/// Shape a partition must have to be integrated against `dims` features.
pub open spec fn qentry_shape(e: QEntry, dims: int) -> bool {
    &&& e.bounds.len() == dims
    &&& box_wf(e.bounds)
    &&& qwf(e.value)
    &&& qwf(e.volume)
}

pub open spec fn qshape(es: Seq<QEntry>, dims: int) -> bool {
    forall|k: int| 0 <= k < es.len() ==> #[trigger] qentry_shape(es[k], dims)
}

/// Checked volume of a rectangle along every dimension but `f`.
pub open spec fn qcompvolc(b: Seq<QInterval>, f: int, i: int) -> Option<Q>
    decreases b.len() - i,
{
    if i < 0 || i >= b.len() {
        Some(qone())
    } else {
        match qcompvolc(b, f, i + 1) {
            None => None,
            Some(rest) => if i == f {
                Some(rest)
            } else {
                match qsubc(b[i].hi, b[i].lo) {
                    None => None,
                    Some(w) => qmulc(w, rest),
                }
            },
        }
    }
}

/// The entry's projection onto `f` covers the cell `[c0, c1]`.
pub open spec fn qcovers(e: QEntry, f: int, c0: Q, c1: Q) -> bool {
    qle(e.bounds[f].lo, c0) && qle(c1, e.bounds[f].hi)
}

/// Insert a coordinate into a sorted list of distinct coordinates,
/// scanning from position `i`; an equal value is dropped.
pub open spec fn qins(s: Seq<Q>, x: Q, i: int) -> Seq<Q>
    decreases s.len() - i,
{
    if i < 0 || i >= s.len() {
        s.push(x)
    } else if qeq(x, s[i]) {
        s
    } else if qlt(x, s[i]) {
        s.insert(i, x)
    } else {
        qins(s, x, i + 1)
    }
}

/// All distinct boundary coordinates of the entries on axis `f`, merged
/// into the accumulator in ascending order.
pub open spec fn qcoords(es: Seq<QEntry>, f: int, acc: Seq<Q>, i: int) -> Seq<Q>
    decreases es.len() - i,
{
    if i < 0 || i >= es.len() {
        acc
    } else {
        qcoords(es, f, qins(qins(acc, es[i].bounds[f].lo, 0), es[i].bounds[f].hi, 0), i + 1)
    }
}

/// Sum, over entries covering the cell, of complement volumes and of
/// complement-volume-weighted values.
pub open spec fn qcellsums(
    es: Seq<QEntry>,
    f: int,
    c0: Q,
    c1: Q,
    i: int,
    accw: Q,
    accv: Q,
) -> Option<(Q, Q)>
    decreases es.len() - i,
{
    if i < 0 || i >= es.len() {
        Some((accw, accv))
    } else if qcovers(es[i], f, c0, c1) {
        match qcompvolc(es[i].bounds, f, 0) {
            None => None,
            Some(cv) => match qaddc(accw, cv) {
                None => None,
                Some(w2) => match qmulc(cv, es[i].value) {
                    None => None,
                    Some(t) => match qaddc(accv, t) {
                        None => None,
                        Some(v2) => qcellsums(es, f, c0, c1, i + 1, w2, v2),
                    },
                },
            },
        }
    } else {
        qcellsums(es, f, c0, c1, i + 1, accw, accv)
    }
}

/// Walk the grid cells, accumulating total width, width-weighted cell
/// values, and width-weighted squared cell values; each cell's
/// normalization is checked against the complement domain volume `cdv`.
pub open spec fn qcellscan(
    es: Seq<QEntry>,
    f: int,
    coords: Seq<Q>,
    cdv: Q,
    k: int,
    accw: Q,
    accm: Q,
    accs: Q,
) -> Result<(Q, Q, Q), Error>
    decreases coords.len() - k,
{
    if k < 0 || k + 1 >= coords.len() {
        Ok((accw, accm, accs))
    } else {
        let c0 = coords[k];
        let c1 = coords[k + 1];
        match qcellsums(es, f, c0, c1, 0, qzero(), qzero()) {
            None => Err(Error::NumericOverflow),
            Some((cw, cvs)) => if !qeq(cw, cdv) || qeq(cw, qzero()) {
                Err(Error::PartitionInvariantViolated)
            } else {
                match qdivc(cvs, cw) {
                    None => Err(Error::NumericOverflow),
                    Some(val) => match qsubc(c1, c0) {
                        None => Err(Error::NumericOverflow),
                        Some(w) => match qaddc(accw, w) {
                            None => Err(Error::NumericOverflow),
                            Some(w2) => match qmulc(w, val) {
                                None => Err(Error::NumericOverflow),
                                Some(m1) => match qaddc(accm, m1) {
                                    None => Err(Error::NumericOverflow),
                                    Some(m2) => match qmulc(m1, val) {
                                        None => Err(Error::NumericOverflow),
                                        Some(s1) => match qaddc(accs, s1) {
                                            None => Err(Error::NumericOverflow),
                                            Some(s2) => qcellscan(
                                                es,
                                                f,
                                                coords,
                                                cdv,
                                                k + 1,
                                                w2,
                                                m2,
                                                s2,
                                            ),
                                        },
                                    },
                                },
                            },
                        },
                    },
                }
            },
        }
    }
}

/// The raw partial variance of feature `f`: the variance of the marginal
/// of the partition's piecewise-constant function over `f`'s range.
pub open spec fn qmarginal_raw(es: Seq<QEntry>, domain: Seq<QInterval>, f: int) -> Result<
    Q,
    Error,
> {
    if !qshape(es, domain.len() as int) {
        Err(Error::PartitionInvariantViolated)
    } else {
        match qcompvolc(domain, f, 0) {
            None => Err(Error::NumericOverflow),
            Some(cdv) => {
                let start = qins(qins(Seq::empty(), domain[f].lo, 0), domain[f].hi, 0);
                let coords = qcoords(es, f, start, 0);
                match qcellscan(es, f, coords, cdv, 0, qzero(), qzero(), qzero()) {
                    Err(e) => Err(e),
                    Ok((w, m, s)) => match qsubc(domain[f].hi, domain[f].lo) {
                        None => Err(Error::NumericOverflow),
                        Some(dw) => if !qeq(w, dw) || qeq(w, qzero()) {
                            Err(Error::PartitionInvariantViolated)
                        } else {
                            match qdivc(m, w) {
                                None => Err(Error::NumericOverflow),
                                Some(mu) => match qmulc(mu, mu) {
                                    None => Err(Error::NumericOverflow),
                                    Some(mu2) => match qdivc(s, w) {
                                        None => Err(Error::NumericOverflow),
                                        Some(sm) => match qsubc(sm, mu2) {
                                            None => Err(Error::NumericOverflow),
                                            Some(raw) => if qlt(raw, qzero()) {
                                                Err(Error::NegativeVariance)
                                            } else {
                                                Ok(raw)
                                            },
                                        },
                                    },
                                },
                            }
                        },
                    },
                }
            },
        }
    }
}

fn check_box(b: &Vec<Interval>) -> (r: bool)
    ensures
        r == box_wf(bounds_view(b@)),
{
    let n = b.len();
    let mut i: usize = 0;
    while i < n
        invariant
            n == b.len(),
            0 <= i <= n,
            forall|j: int| 0 <= j < i ==> #[trigger] bound_wf(bounds_view(b@)[j]),
        decreases n - i,
    {
        assert(bounds_view(b@)[i as int] == b@[i as int]@);
        let lo_ok: bool = b[i].lo.den() >= 1;
        let hi_ok: bool = b[i].hi.den() >= 1;
        if !(lo_ok && hi_ok) {
            assert(!bound_wf(bounds_view(b@)[i as int]));
            assert(!box_wf(bounds_view(b@)));
            return false;
        }
        assert(bound_wf(bounds_view(b@)[i as int]));
        i = i + 1;
    }
    true
}

/// Check that a partition has the shape required over `dims` features;
/// decides `qshape` exactly.
pub fn check_partition_shape(es: &Vec<PartitionEntry>, dims: usize) -> (r: bool)
    ensures
        r == qshape(entries_view(es@), dims as int),
{
    let n = es.len();
    let mut k: usize = 0;
    while k < n
        invariant
            n == es.len(),
            0 <= k <= n,
            forall|j: int| 0 <= j < k ==> qentry_shape(#[trigger] entries_view(es@)[j], dims as int),
        decreases n - k,
    {
        let e = &es[k];
        assert(entries_view(es@)[k as int] == es@[k as int]@);
        let ok: bool = e.bounds.len() == dims && check_box(&e.bounds) && e.value.den() >= 1
            && e.volume.den() >= 1;
        if !ok {
            assert(!qentry_shape(entries_view(es@)[k as int], dims as int));
            return false;
        }
        assert(qentry_shape(entries_view(es@)[k as int], dims as int));
        k = k + 1;
    }
    true
}

fn comp_vol_from(b: &Vec<Interval>, f: usize, i: usize) -> (r: Option<Rat>)
    requires
        box_wf(bounds_view(b@)),
        i <= b@.len(),
    ensures
        match r {
            Some(v) => qcompvolc(bounds_view(b@), f as int, i as int) == Some(v@) && qwf(v@),
            None => qcompvolc(bounds_view(b@), f as int, i as int) is None,
        },
    decreases b@.len() - i,
{
    if i >= b.len() {
        return Some(Rat::one());
    }
    assert(bounds_view(b@)[i as int] == b@[i as int]@);
    assert(bound_wf(bounds_view(b@)[i as int]));
    let rest = match comp_vol_from(b, f, i + 1) {
        Some(rest) => rest,
        None => {
            return None;
        },
    };
    if i == f {
        Some(rest)
    } else {
        let w = match b[i].hi.checked_sub(&b[i].lo) {
            Some(w) => w,
            None => {
                return None;
            },
        };
        w.checked_mul(&rest)
    }
}

fn ins_coord(s: Vec<Rat>, x: Rat, i: usize) -> (r: Vec<Rat>)
    requires
        qall_wf(rats_view(s@)),
        qwf(x@),
        i <= s@.len(),
    ensures
        rats_view(r@) == qins(rats_view(s@), x@, i as int),
        qall_wf(rats_view(r@)),
    decreases s@.len() - i,
{
    let ghost sv = rats_view(s@);
    if i >= s.len() {
        let mut s2 = s;
        s2.push(x);
        assert(rats_view(s2@) =~= sv.push(x@));
        assert forall|j: int| 0 <= j < rats_view(s2@).len() implies qwf(
            #[trigger] rats_view(s2@)[j],
        ) by {
            if j < sv.len() {
                assert(rats_view(s2@)[j] == sv[j]);
            }
        }
        s2
    } else {
        assert(sv[i as int] == s@[i as int]@);
        if x.eq_value(&s[i]) {
            s
        } else if x.lt(&s[i]) {
            let mut s2 = s;
            s2.insert(i, x);
            assert(rats_view(s2@) =~= sv.insert(i as int, x@));
            assert forall|j: int| 0 <= j < rats_view(s2@).len() implies qwf(
                #[trigger] rats_view(s2@)[j],
            ) by {
                let t = rats_view(s2@);
                if j < i {
                    assert(t[j] == sv[j]);
                } else if j == i {
                    assert(t[j] == x@);
                } else {
                    assert(t[j] == sv[j - 1]);
                }
            }
            s2
        } else {
            ins_coord(s, x, i + 1)
        }
    }
}

fn build_coords(es: &Vec<PartitionEntry>, f: usize, acc: Vec<Rat>, i: usize, dims: usize) -> (r:
    Vec<Rat>)
    requires
        qshape(entries_view(es@), dims as int),
        f < dims,
        qall_wf(rats_view(acc@)),
        i <= es@.len(),
    ensures
        rats_view(r@) == qcoords(entries_view(es@), f as int, rats_view(acc@), i as int),
        qall_wf(rats_view(r@)),
    decreases es@.len() - i,
{
    if i >= es.len() {
        return acc;
    }
    let ghost esv = entries_view(es@);
    assert(esv[i as int] == es@[i as int]@);
    assert(qentry_shape(esv[i as int], dims as int));
    let e = &es[i];
    assert(esv[i as int].bounds[f as int] == e.bounds@[f as int]@);
    assert(bound_wf(esv[i as int].bounds[f as int]));
    let lo = e.bounds[f].lo;
    let hi = e.bounds[f].hi;
    let a1 = ins_coord(acc, lo, 0);
    let a2 = ins_coord(a1, hi, 0);
    build_coords(es, f, a2, i + 1, dims)
}

fn cell_sums(
    es: &Vec<PartitionEntry>,
    f: usize,
    c0: &Rat,
    c1: &Rat,
    i: usize,
    accw: Rat,
    accv: Rat,
    dims: usize,
) -> (r: Option<(Rat, Rat)>)
    requires
        qshape(entries_view(es@), dims as int),
        f < dims,
        qwf(c0@),
        qwf(c1@),
        qwf(accw@),
        qwf(accv@),
        i <= es@.len(),
    ensures
        match r {
            Some(p) => qcellsums(entries_view(es@), f as int, c0@, c1@, i as int, accw@, accv@)
                == Some((p.0@, p.1@)) && qwf(p.0@) && qwf(p.1@),
            None => qcellsums(entries_view(es@), f as int, c0@, c1@, i as int, accw@, accv@)
                is None,
        },
    decreases es@.len() - i,
{
    if i >= es.len() {
        return Some((accw, accv));
    }
    let ghost esv = entries_view(es@);
    assert(esv[i as int] == es@[i as int]@);
    assert(qentry_shape(esv[i as int], dims as int));
    let e = &es[i];
    assert(esv[i as int].bounds[f as int] == e.bounds@[f as int]@);
    assert(bound_wf(esv[i as int].bounds[f as int]));
    let covers: bool = e.bounds[f].lo.le(c0) && c1.le(&e.bounds[f].hi);
    assert(covers == qcovers(esv[i as int], f as int, c0@, c1@));
    if covers {
        let cv = match comp_vol_from(&e.bounds, f, 0) {
            Some(cv) => cv,
            None => {
                return None;
            },
        };
        let w2 = match accw.checked_add(&cv) {
            Some(w2) => w2,
            None => {
                return None;
            },
        };
        let t = match cv.checked_mul(&e.value) {
            Some(t) => t,
            None => {
                return None;
            },
        };
        let v2 = match accv.checked_add(&t) {
            Some(v2) => v2,
            None => {
                return None;
            },
        };
        cell_sums(es, f, c0, c1, i + 1, w2, v2, dims)
    } else {
        cell_sums(es, f, c0, c1, i + 1, accw, accv, dims)
    }
}

fn cell_scan(
    es: &Vec<PartitionEntry>,
    f: usize,
    coords: &Vec<Rat>,
    cdv: &Rat,
    k: usize,
    accw: Rat,
    accm: Rat,
    accs: Rat,
    dims: usize,
) -> (r: Result<(Rat, Rat, Rat), Error>)
    requires
        qshape(entries_view(es@), dims as int),
        f < dims,
        qall_wf(rats_view(coords@)),
        qwf(cdv@),
        qwf(accw@),
        qwf(accm@),
        qwf(accs@),
        k <= coords@.len(),
    ensures
        match r {
            Ok(p) => qcellscan(
                entries_view(es@),
                f as int,
                rats_view(coords@),
                cdv@,
                k as int,
                accw@,
                accm@,
                accs@,
            ) == Ok::<(Q, Q, Q), Error>((p.0@, p.1@, p.2@)) && qwf(p.0@) && qwf(p.1@) && qwf(p.2@),
            Err(e) => qcellscan(
                entries_view(es@),
                f as int,
                rats_view(coords@),
                cdv@,
                k as int,
                accw@,
                accm@,
                accs@,
            ) == Err::<(Q, Q, Q), Error>(e),
        },
    decreases coords@.len() - k,
{
    let ghost cv_ = rats_view(coords@);
    if coords.len() == 0 || k >= coords.len() - 1 {
        return Ok((accw, accm, accs));
    }
    assert(cv_[k as int] == coords@[k as int]@);
    assert(cv_[k as int + 1] == coords@[k as int + 1]@);
    let c0 = coords[k];
    let c1 = coords[k + 1];
    let (cw, cvs) = match cell_sums(es, f, &c0, &c1, 0, Rat::zero(), Rat::zero(), dims) {
        Some(p) => p,
        None => {
            return Err(Error::NumericOverflow);
        },
    };
    if !cw.eq_value(cdv) || cw.is_zero() {
        return Err(Error::PartitionInvariantViolated);
    }
    assert(cw@.n != 0) by {
        assert(!qeq(cw@, qzero()));
    }
    let val = match cvs.checked_div(&cw) {
        Some(v) => v,
        None => {
            return Err(Error::NumericOverflow);
        },
    };
    let w = match c1.checked_sub(&c0) {
        Some(w) => w,
        None => {
            return Err(Error::NumericOverflow);
        },
    };
    let w2 = match accw.checked_add(&w) {
        Some(x) => x,
        None => {
            return Err(Error::NumericOverflow);
        },
    };
    let m1 = match w.checked_mul(&val) {
        Some(x) => x,
        None => {
            return Err(Error::NumericOverflow);
        },
    };
    let m2 = match accm.checked_add(&m1) {
        Some(x) => x,
        None => {
            return Err(Error::NumericOverflow);
        },
    };
    let s1 = match m1.checked_mul(&val) {
        Some(x) => x,
        None => {
            return Err(Error::NumericOverflow);
        },
    };
    let s2 = match accs.checked_add(&s1) {
        Some(x) => x,
        None => {
            return Err(Error::NumericOverflow);
        },
    };
    cell_scan(es, f, coords, cdv, k + 1, w2, m2, s2, dims)
}

/// Raw partial variance of feature `f` for one tree's partition; decides
/// `qmarginal_raw` exactly, including each failure.
pub fn marginal_raw_variance(es: &Vec<PartitionEntry>, domain: &Vec<Interval>, f: usize) -> (r:
    Result<Rat, Error>)
    requires
        box_wf(bounds_view(domain@)),
        f < domain@.len(),
    ensures
        match r {
            Ok(v) => qmarginal_raw(entries_view(es@), bounds_view(domain@), f as int) == Ok::<
                Q,
                Error,
            >(v@) && qwf(v@),
            Err(e) => qmarginal_raw(entries_view(es@), bounds_view(domain@), f as int) == Err::<
                Q,
                Error,
            >(e),
        },
{
    let ghost esv = entries_view(es@);
    let ghost dv = bounds_view(domain@);
    let dims = domain.len();
    if !check_partition_shape(es, dims) {
        return Err(Error::PartitionInvariantViolated);
    }
    let cdv = match comp_vol_from(domain, f, 0) {
        Some(v) => v,
        None => {
            return Err(Error::NumericOverflow);
        },
    };
    assert(dv[f as int] == domain@[f as int]@);
    assert(bound_wf(dv[f as int]));
    let empty: Vec<Rat> = Vec::new();
    assert(rats_view(empty@) =~= Seq::<Q>::empty());
    let s1 = ins_coord(empty, domain[f].lo, 0);
    let s2 = ins_coord(s1, domain[f].hi, 0);
    let coords = build_coords(es, f, s2, 0, dims);
    let (w, m, s) = match cell_scan(
        es,
        f,
        &coords,
        &cdv,
        0,
        Rat::zero(),
        Rat::zero(),
        Rat::zero(),
        dims,
    ) {
        Ok(p) => p,
        Err(e) => {
            return Err(e);
        },
    };
    let dw = match domain[f].hi.checked_sub(&domain[f].lo) {
        Some(x) => x,
        None => {
            return Err(Error::NumericOverflow);
        },
    };
    if !w.eq_value(&dw) || w.is_zero() {
        return Err(Error::PartitionInvariantViolated);
    }
    assert(w@.n != 0) by {
        assert(!qeq(w@, qzero()));
        assert(w@.n * 1 == w@.n) by (nonlinear_arith);
        assert(0 * w@.d == 0) by (nonlinear_arith);
    }
    let mu = match m.checked_div(&w) {
        Some(x) => x,
        None => {
            return Err(Error::NumericOverflow);
        },
    };
    let mu2 = match mu.checked_mul(&mu) {
        Some(x) => x,
        None => {
            return Err(Error::NumericOverflow);
        },
    };
    let sm = match s.checked_div(&w) {
        Some(x) => x,
        None => {
            return Err(Error::NumericOverflow);
        },
    };
    let raw = match sm.checked_sub(&mu2) {
        Some(x) => x,
        None => {
            return Err(Error::NumericOverflow);
        },
    };
    if raw.is_neg() {
        Err(Error::NegativeVariance)
    } else {
        Ok(raw)
    }
}

} // verus!
