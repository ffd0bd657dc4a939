//! Exact rational arithmetic on `i64` numerator/denominator pairs.
//!
//! Every arithmetic result is reduced (sign-normalized and divided by the
//! gcd of its parts) and then range-checked; an operation whose reduced
//! result does not fit the `i64` range reports `None` instead of wrapping.
//! The ghost model `Q` is an unbounded integer pair with the denominator
//! at least one; `canon` is the spec-level image of the reduction the
//! executable code performs, so the result of every operation is pinned
//! exactly by its contract.

use vstd::prelude::*;

verus! {

/// Ghost model of a rational number: numerator over denominator.
pub ghost struct Q {
    pub n: int,
    pub d: int,
}

/// Well-formed model: positive denominator.
pub open spec fn qwf(q: Q) -> bool {
    q.d >= 1
}

pub open spec fn qzero() -> Q {
    Q { n: 0, d: 1 }
}

pub open spec fn qone() -> Q {
    Q { n: 1, d: 1 }
}

pub open spec fn qabs(x: int) -> int {
    if x < 0 {
        -x
    } else {
        x
    }
}

pub open spec fn qsign(x: int) -> int {
    if x < 0 {
        -1
    } else {
        1
    }
}

/// Euclid's greatest common divisor on nonnegative arguments.
pub open spec fn qgcd(a: int, b: int) -> int
    decreases b,
{
    if b <= 0 {
        a
    } else {
        qgcd(b, a % b)
    }
}

/// The reduction the executable operations apply: normalize the sign of the
/// denominator, then divide both parts by their gcd when that is exact.
pub open spec fn canon(p: Q) -> Q {
    let n = if p.d < 0 {
        -p.n
    } else {
        p.n
    };
    let d = if p.d < 0 {
        -p.d
    } else {
        p.d
    };
    let g = qgcd(qabs(n), d);
    if 1 <= g && qabs(n) % g == 0 && d % g == 0 {
        Q { n: qsign(n) * (qabs(n) / g), d: d / g }
    } else {
        Q { n, d }
    }
}

/// Largest magnitude the stored numerator and denominator may take.
pub open spec fn qbound() -> int {
    0x7fff_ffff_ffff_ffff
}

/// The reduced form of `p` fits the executable representation.
pub open spec fn qfits(p: Q) -> bool {
    let c = canon(p);
    &&& -qbound() <= c.n <= qbound()
    &&& 1 <= c.d <= qbound()
}

/// Value equality of two rationals (cross multiplication).
pub open spec fn qeq(a: Q, b: Q) -> bool {
    a.n * b.d == b.n * a.d
}

/// Value ordering, valid for well-formed (positive-denominator) rationals.
pub open spec fn qle(a: Q, b: Q) -> bool {
    a.n * b.d <= b.n * a.d
}

pub open spec fn qlt(a: Q, b: Q) -> bool {
    a.n * b.d < b.n * a.d
}

pub open spec fn qmin(a: Q, b: Q) -> Q {
    if qle(a, b) {
        a
    } else {
        b
    }
}

pub open spec fn qmax(a: Q, b: Q) -> Q {
    if qle(a, b) {
        b
    } else {
        a
    }
}

pub open spec fn qclamp01(q: Q) -> Q {
    if qlt(q, qzero()) {
        qzero()
    } else if qlt(qone(), q) {
        qone()
    } else {
        q
    }
}

/// Checked addition: the reduced exact sum, or `None` if it does not fit.
pub open spec fn qaddc(a: Q, b: Q) -> Option<Q> {
    let raw = Q { n: a.n * b.d + b.n * a.d, d: a.d * b.d };
    if qfits(raw) {
        Some(canon(raw))
    } else {
        None
    }
}

pub open spec fn qsubc(a: Q, b: Q) -> Option<Q> {
    let raw = Q { n: a.n * b.d - b.n * a.d, d: a.d * b.d };
    if qfits(raw) {
        Some(canon(raw))
    } else {
        None
    }
}

pub open spec fn qmulc(a: Q, b: Q) -> Option<Q> {
    let raw = Q { n: a.n * b.n, d: a.d * b.d };
    if qfits(raw) {
        Some(canon(raw))
    } else {
        None
    }
}

/// Checked division; meaningful only for a nonzero divisor value.
pub open spec fn qdivc(a: Q, b: Q) -> Option<Q> {
    let raw = Q { n: a.n * b.d, d: a.d * b.n };
    if qfits(raw) {
        Some(canon(raw))
    } else {
        None
    }
}

proof fn lemma_mul_nd_bound(x: int, y: int)
    by (nonlinear_arith)
    requires
        -0x8000_0000_0000_0000 <= x <= 0x7fff_ffff_ffff_ffff,
        1 <= y <= 0x7fff_ffff_ffff_ffff,
    ensures
        -0x3fff_ffff_ffff_ffff_8000_0000_0000_0000 <= x * y
            <= 0x3fff_ffff_ffff_ffff_8000_0000_0000_0000,
{
}

proof fn lemma_mul_nn_bound(x: int, y: int)
    by (nonlinear_arith)
    requires
        -0x8000_0000_0000_0000 <= x <= 0x7fff_ffff_ffff_ffff,
        -0x8000_0000_0000_0000 <= y <= 0x7fff_ffff_ffff_ffff,
    ensures
        -0x4000_0000_0000_0000_0000_0000_0000_0000 <= x * y
            <= 0x4000_0000_0000_0000_0000_0000_0000_0000,
{
}

proof fn lemma_mul_dd_pos(x: int, y: int)
    by (nonlinear_arith)
    requires
        1 <= x,
        1 <= y,
    ensures
        1 <= x * y,
{
}

/// Exact rational number, reduced and bounded by construction of the
/// arithmetic operations.
#[derive(Clone, Copy, Debug)]
pub struct Rat {
    n: i64,
    d: i64,
}

impl View for Rat {
    type V = Q;

    closed spec fn view(&self) -> Q {
        Q { n: self.n as int, d: self.d as int }
    }
}

fn gcd128(a: i128, b: i128) -> (r: i128)
    requires
        a >= 0,
        b >= 0,
    ensures
        r == qgcd(a as int, b as int),
        r >= 0,
{
    let mut x: i128 = a;
    let mut y: i128 = b;
    while y != 0
        invariant
            x >= 0,
            y >= 0,
            qgcd(x as int, y as int) == qgcd(a as int, b as int),
        decreases y,
    {
        let t: i128 = x % y;
        x = y;
        y = t;
    }
    x
}

/// Reduce and range-check an exact intermediate result; mirrors `canon`
/// and `qfits` on a pair whose denominator is already positive.
fn norm128(n: i128, d: i128) -> (r: Option<Rat>)
    requires
        1 <= d,
        -0x7fff_ffff_ffff_ffff_ffff_ffff_ffff_ffff <= n,
    ensures
        match r {
            Some(q) => qfits(Q { n: n as int, d: d as int }) && q@ == canon(
                Q { n: n as int, d: d as int },
            ),
            None => !qfits(Q { n: n as int, d: d as int }),
        },
{
    let na: i128 = if n < 0 {
        -n
    } else {
        n
    };
    let g: i128 = gcd128(na, d);
    let (rn, rd): (i128, i128) = if g >= 1 && na % g == 0 && d % g == 0 {
        let q: i128 = na / g;
        let sn: i128 = if n < 0 {
            -q
        } else {
            q
        };
        (sn, d / g)
    } else {
        (n, d)
    };
    assert(rn == canon(Q { n: n as int, d: d as int }).n);
    assert(rd == canon(Q { n: n as int, d: d as int }).d);
    if -0x7fff_ffff_ffff_ffff <= rn && rn <= 0x7fff_ffff_ffff_ffff && 1 <= rd && rd
        <= 0x7fff_ffff_ffff_ffff {
        Some(Rat { n: rn as i64, d: rd as i64 })
    } else {
        None
    }
}

impl Rat {
    /// The rational `n / d`; the caller supplies a positive denominator.
    pub fn new(n: i64, d: i64) -> (r: Rat)
        requires
            1 <= d,
        ensures
            r@ == (Q { n: n as int, d: d as int }),
    {
        Rat { n, d }
    }

    pub fn from_int(n: i64) -> (r: Rat)
        ensures
            r@ == (Q { n: n as int, d: 1 }),
    {
        Rat { n, d: 1 }
    }

    pub fn zero() -> (r: Rat)
        ensures
            r@ == qzero(),
    {
        Rat { n: 0, d: 1 }
    }

    pub fn one() -> (r: Rat)
        ensures
            r@ == qone(),
    {
        Rat { n: 1, d: 1 }
    }

    pub fn num(&self) -> (r: i64)
        ensures
            r as int == self@.n,
    {
        self.n
    }

    pub fn den(&self) -> (r: i64)
        ensures
            r as int == self@.d,
    {
        self.d
    }

    pub fn checked_add(&self, other: &Rat) -> (r: Option<Rat>)
        requires
            qwf(self@),
            qwf(other@),
        ensures
            match r {
                Some(q) => qaddc(self@, other@) == Some(q@) && qwf(q@),
                None => qaddc(self@, other@) is None,
            },
    {
        proof {
            lemma_mul_nd_bound(self.n as int, other.d as int);
            lemma_mul_nd_bound(other.n as int, self.d as int);
            lemma_mul_dd_pos(self.d as int, other.d as int);
            lemma_mul_nd_bound(self.d as int, other.d as int);
        }
        let n: i128 = (self.n as i128) * (other.d as i128) + (other.n as i128) * (self.d as i128);
        let d: i128 = (self.d as i128) * (other.d as i128);
        norm128(n, d)
    }

    pub fn checked_sub(&self, other: &Rat) -> (r: Option<Rat>)
        requires
            qwf(self@),
            qwf(other@),
        ensures
            match r {
                Some(q) => qsubc(self@, other@) == Some(q@) && qwf(q@),
                None => qsubc(self@, other@) is None,
            },
    {
        proof {
            lemma_mul_nd_bound(self.n as int, other.d as int);
            lemma_mul_nd_bound(other.n as int, self.d as int);
            lemma_mul_dd_pos(self.d as int, other.d as int);
            lemma_mul_nd_bound(self.d as int, other.d as int);
        }
        let n: i128 = (self.n as i128) * (other.d as i128) - (other.n as i128) * (self.d as i128);
        let d: i128 = (self.d as i128) * (other.d as i128);
        norm128(n, d)
    }

    pub fn checked_mul(&self, other: &Rat) -> (r: Option<Rat>)
        requires
            qwf(self@),
            qwf(other@),
        ensures
            match r {
                Some(q) => qmulc(self@, other@) == Some(q@) && qwf(q@),
                None => qmulc(self@, other@) is None,
            },
    {
        proof {
            lemma_mul_nn_bound(self.n as int, other.n as int);
            lemma_mul_dd_pos(self.d as int, other.d as int);
            lemma_mul_nd_bound(self.d as int, other.d as int);
        }
        let n: i128 = (self.n as i128) * (other.n as i128);
        let d: i128 = (self.d as i128) * (other.d as i128);
        norm128(n, d)
    }

    /// Checked division by a rational whose value is not zero.
    pub fn checked_div(&self, other: &Rat) -> (r: Option<Rat>)
        requires
            qwf(self@),
            qwf(other@),
            other@.n != 0,
        ensures
            match r {
                Some(q) => qdivc(self@, other@) == Some(q@) && qwf(q@),
                None => qdivc(self@, other@) is None,
            },
    {
        proof {
            lemma_mul_nd_bound(self.n as int, other.d as int);
            lemma_mul_nn_bound(self.d as int, other.n as int);
        }
        let n0: i128 = (self.n as i128) * (other.d as i128);
        let d0: i128 = (self.d as i128) * (other.n as i128);
        let (n, d): (i128, i128) = if d0 < 0 {
            (-n0, -d0)
        } else {
            (n0, d0)
        };
        assert(d0 != 0) by {
            lemma_nonzero_mul(self.d as int, other.n as int);
        }
        assert(canon(Q { n: n as int, d: d as int }) == canon(
            Q { n: n0 as int, d: d0 as int },
        ));
        assert(qfits(Q { n: n as int, d: d as int }) == qfits(Q { n: n0 as int, d: d0 as int }));
        norm128(n, d)
    }

    pub fn le(&self, other: &Rat) -> (r: bool)
        requires
            qwf(self@),
            qwf(other@),
        ensures
            r == qle(self@, other@),
    {
        proof {
            lemma_mul_nd_bound(self.n as int, other.d as int);
            lemma_mul_nd_bound(other.n as int, self.d as int);
        }
        (self.n as i128) * (other.d as i128) <= (other.n as i128) * (self.d as i128)
    }

    pub fn lt(&self, other: &Rat) -> (r: bool)
        requires
            qwf(self@),
            qwf(other@),
        ensures
            r == qlt(self@, other@),
    {
        proof {
            lemma_mul_nd_bound(self.n as int, other.d as int);
            lemma_mul_nd_bound(other.n as int, self.d as int);
        }
        (self.n as i128) * (other.d as i128) < (other.n as i128) * (self.d as i128)
    }

    /// Value equality, independent of representation.
    pub fn eq_value(&self, other: &Rat) -> (r: bool)
        requires
            qwf(self@),
            qwf(other@),
        ensures
            r == qeq(self@, other@),
    {
        proof {
            lemma_mul_nd_bound(self.n as int, other.d as int);
            lemma_mul_nd_bound(other.n as int, self.d as int);
        }
        (self.n as i128) * (other.d as i128) == (other.n as i128) * (self.d as i128)
    }

    pub fn is_zero(&self) -> (r: bool)
        requires
            qwf(self@),
        ensures
            r == qeq(self@, qzero()),
    {
        self.n == 0
    }

    pub fn is_neg(&self) -> (r: bool)
        requires
            qwf(self@),
        ensures
            r == qlt(self@, qzero()),
    {
        proof {
            lemma_sign_by_num(self@.n, self@.d);
        }
        self.n < 0
    }

    pub fn is_pos(&self) -> (r: bool)
        requires
            qwf(self@),
        ensures
            r == qlt(qzero(), self@),
    {
        proof {
            lemma_sign_by_num(self@.n, self@.d);
        }
        self.n > 0
    }

    pub fn min_val(&self, other: &Rat) -> (r: Rat)
        requires
            qwf(self@),
            qwf(other@),
        ensures
            r@ == qmin(self@, other@),
    {
        if self.le(other) {
            *self
        } else {
            *other
        }
    }

    pub fn max_val(&self, other: &Rat) -> (r: Rat)
        requires
            qwf(self@),
            qwf(other@),
        ensures
            r@ == qmax(self@, other@),
    {
        if self.le(other) {
            *other
        } else {
            *self
        }
    }

    /// Clamp the value into `[0, 1]`.
    pub fn clamp01(&self) -> (r: Rat)
        requires
            qwf(self@),
        ensures
            r@ == qclamp01(self@),
            qwf(r@),
    {
        let z = Rat::zero();
        let o = Rat::one();
        if self.lt(&z) {
            z
        } else if o.lt(self) {
            o
        } else {
            *self
        }
    }
}

proof fn lemma_nonzero_mul(x: int, y: int)
    by (nonlinear_arith)
    requires
        x != 0,
        y != 0,
    ensures
        x * y != 0,
{
}

proof fn lemma_sign_by_num(n: int, d: int)
    by (nonlinear_arith)
    requires
        d >= 1,
    ensures
        (n * 1 < 0 * d) == (n < 0),
        (0 * d < n * 1) == (n > 0),
{
}

} // verus!
