//! Library-level laws.

use vstd::prelude::*;

use crate::importance::{
    qacc_add, qfinalize, qforest_scan, qtree_fracs, qtreevar, qzeros, spec_quantify,
};
use crate::model::{Error, QInterval, QNode};
use crate::partition::{qpartition, QEntry};
use crate::rat::{canon, qaddc, qclamp01, qdivc, qgcd, qle, qlt, qone, qwf, qzero, Q};

verus! {

proof fn lemma_qaddc_zero_zero()
    ensures
        qaddc(qzero(), qzero()) == Some(qzero()),
{
    reveal_with_fuel(qgcd, 3);
    assert(qgcd(0int, 1int) == 1);
    assert(canon(Q { n: 0, d: 1 }) == qzero());
}

proof fn lemma_qdivc_zero_by_pos(c: int)
    requires
        1 <= c,
    ensures
        qdivc(qzero(), Q { n: c, d: 1 }) == Some(qzero()),
{
    reveal_with_fuel(qgcd, 3);
    assert(0int % c == 0) by (nonlinear_arith)
        requires
            c >= 1,
    ;
    assert(c % c == 0int) by (nonlinear_arith)
        requires
            c >= 1,
    ;
    assert(0int / c == 0) by (nonlinear_arith)
        requires
            c >= 1,
    ;
    assert(c / c == 1int) by (nonlinear_arith)
        requires
            c >= 1,
    ;
    assert(qgcd(0int, c) == c);
    assert(canon(Q { n: 0, d: c }) == qzero());
}

proof fn lemma_acc_add_props(acc: Seq<Q>, inc: Seq<Q>, j: int, out: Seq<Q>, res: Seq<Q>)
    requires
        0 <= j <= acc.len(),
        qacc_add(acc, inc, j, out) == Some(res),
    ensures
        res.len() == out.len() + acc.len() - j,
        forall|k: int| 0 <= k < out.len() ==> res[k] == out[k],
        forall|k: int|
            j <= k < acc.len() ==> (#[trigger] qaddc(acc[k], inc[k])) is Some && res[out.len() + k
                - j] == qaddc(acc[k], inc[k])->Some_0,
    decreases acc.len() - j,
{
    if j < acc.len() {
        match qaddc(acc[j], inc[j]) {
            None => (),
            Some(v) => {
                lemma_acc_add_props(acc, inc, j + 1, out.push(v), res);
            },
        }
    }
}

proof fn lemma_scan_empty_zero(
    trees: Seq<Seq<QNode>>,
    domain: Seq<QInterval>,
    subsets: Seq<Seq<int>>,
    t: int,
    acc: Seq<Q>,
    cnt: int,
    j: int,
    p: (Seq<Q>, int),
)
    requires
        0 <= t <= trees.len(),
        qforest_scan(trees, domain, subsets, t, acc, cnt) == Ok::<(Seq<Q>, int), Error>(p),
        acc.len() == subsets.len(),
        0 <= j < subsets.len(),
        subsets[j].len() == 0,
        acc[j] == qzero(),
        cnt >= 0,
    ensures
        p.0.len() == subsets.len(),
        p.0[j] == qzero(),
        p.1 >= 0,
    decreases trees.len() - t,
{
    if t < trees.len() {
        match qpartition(trees[t], 0, domain) {
            Err(_) => (),
            Ok(es) => match qtreevar(es, domain.len() as int) {
                Err(_) => (),
                Ok(opt) => match opt {
                    None => {
                        lemma_scan_empty_zero(trees, domain, subsets, t + 1, acc, cnt, j, p);
                    },
                    Some(vt) => match qtree_fracs(es, domain, subsets, vt, 0, Seq::empty()) {
                        Err(_) => (),
                        Ok(fr) => {
                            lemma_empty_subset_fraction_zero(
                                es,
                                domain,
                                subsets,
                                vt,
                                0,
                                Seq::empty(),
                                fr,
                            );
                            match qacc_add(acc, fr, 0, Seq::empty()) {
                                None => (),
                                Some(acc2) => {
                                    lemma_acc_add_props(acc, fr, 0, Seq::empty(), acc2);
                                    lemma_qaddc_zero_zero();
                                    assert(fr[j] == qzero());
                                    assert(acc2[j] == qzero());
                                    lemma_scan_empty_zero(
                                        trees,
                                        domain,
                                        subsets,
                                        t + 1,
                                        acc2,
                                        cnt + 1,
                                        j,
                                        p,
                                    );
                                },
                            }
                        },
                    },
                },
            },
        }
    }
}

proof fn lemma_finalize_props(acc: Seq<Q>, cnt: int, j: int, out: Seq<Q>, res: Seq<Q>)
    requires
        0 <= j <= acc.len(),
        cnt >= 0,
        qfinalize(acc, cnt, j, out) == Ok::<Seq<Q>, Error>(res),
    ensures
        res.len() == out.len() + acc.len() - j,
        forall|k: int| 0 <= k < out.len() ==> res[k] == out[k],
        forall|k: int|
            j <= k < acc.len() && (#[trigger] acc[k]) == qzero() ==> res[out.len() + k - j]
                == qzero(),
    decreases acc.len() - j,
{
    if j < acc.len() {
        if cnt == 0 {
            lemma_finalize_props(acc, cnt, j + 1, out.push(qzero()), res);
        } else {
            match qdivc(acc[j], Q { n: cnt, d: 1 }) {
                None => (),
                Some(v) => {
                    if acc[j] == qzero() {
                        lemma_qdivc_zero_by_pos(cnt);
                    }
                    lemma_finalize_props(acc, cnt, j + 1, out.push(v), res);
                },
            }
        }
    }
}

/// Law: the empty subset's importance is exactly zero — whatever the
/// forest, a requested subset with no features gets the importance zero
/// in the decomposition's result, because its partial variance is zero
/// for every tree.
pub proof fn lemma_empty_subset_importance_zero(
    trees: Seq<Seq<QNode>>,
    domain: Seq<QInterval>,
    subsets: Seq<Seq<int>>,
    j: int,
    res: Seq<Q>,
)
    requires
        spec_quantify(trees, domain, subsets) == Ok::<Seq<Q>, Error>(res),
        0 <= j < subsets.len(),
        subsets[j].len() == 0,
    ensures
        res.len() == subsets.len(),
        res[j] == qzero(),
{
    let zeros = qzeros(subsets.len() as int);
    match qforest_scan(trees, domain, subsets, 0, zeros, 0) {
        Err(_) => (),
        Ok(p) => {
            assert(zeros[j] == qzero());
            lemma_scan_empty_zero(trees, domain, subsets, 0, zeros, 0, j, p);
            lemma_finalize_props(p.0, p.1, 0, Seq::empty(), res);
            assert(res[j] == qzero());
        },
    }
}

/// Law: the empty subset carries no variance — for every tree and every
/// subset list, the fraction computed at an empty-subset position is
/// exactly zero, whatever the tree's partition and total variance are.
pub proof fn lemma_empty_subset_fraction_zero(
    es: Seq<QEntry>,
    domain: Seq<QInterval>,
    subsets: Seq<Seq<int>>,
    vt: Q,
    j: int,
    acc: Seq<Q>,
    out: Seq<Q>,
)
    requires
        0 <= j <= subsets.len(),
        qtree_fracs(es, domain, subsets, vt, j, acc) == Ok::<Seq<Q>, Error>(out),
    ensures
        out.len() == acc.len() + subsets.len() - j,
        forall|k: int| 0 <= k < acc.len() ==> out[k] == acc[k],
        forall|k: int|
            j <= k < subsets.len() && (#[trigger] subsets[k]).len() == 0 ==> out[acc.len() + k
                - j] == qzero(),
    decreases subsets.len() - j,
{
    if j < subsets.len() {
        if subsets[j].len() == 0 {
            lemma_empty_subset_fraction_zero(
                es,
                domain,
                subsets,
                vt,
                j + 1,
                acc.push(qzero()),
                out,
            );
        } else {
            match crate::marginal::qmarginal_raw(es, domain, subsets[j][0]) {
                Err(_) => (),
                Ok(rawv) => {
                    match crate::rat::qdivc(rawv, vt) {
                        None => (),
                        Some(fr) => {
                            lemma_empty_subset_fraction_zero(
                                es,
                                domain,
                                subsets,
                                vt,
                                j + 1,
                                acc.push(qclamp01(fr)),
                                out,
                            );
                        },
                    }
                },
            }
        }
    }
}

/// Toward the range law for importances: a clamped fraction always lies
/// between zero and one, so every per-tree fraction that enters the
/// forest average is in `[0, 1]`.
pub proof fn lemma_clamp01_bounds(q: Q)
    requires
        qwf(q),
    ensures
        qwf(qclamp01(q)),
        qle(qzero(), qclamp01(q)),
        qle(qclamp01(q), qone()),
{
    if qlt(q, qzero()) {
    } else if qlt(qone(), q) {
    } else {
    }
}

/// Law: the decomposition has no hidden state — it is a function of the
/// forest and the requested subset list alone, so two calls of
/// `quantify_importances` on the same forest and subsets return results
/// pinned to the same value, success or failure.
pub proof fn lemma_decomposition_idempotent(
    trees: Seq<Seq<QNode>>,
    domain: Seq<QInterval>,
    subsets: Seq<Seq<int>>,
    r1: Result<Seq<Q>, Error>,
    r2: Result<Seq<Q>, Error>,
)
    requires
        r1 == spec_quantify(trees, domain, subsets),
        r2 == spec_quantify(trees, domain, subsets),
    ensures
        r1 == r2,
{
}

} // verus!
