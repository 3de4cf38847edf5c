use vstd::prelude::*;

verus! {

/// An expected cost. Costs are exact rationals; `NonFinite` stands for a cost
/// that is unbounded (a degenerate cycle whose linear solution divides by
/// zero) or that has left the representable range. Callers must treat a
/// `NonFinite` cost as "never select this branch"; every comparison here
/// orders it above all finite costs.
#[derive(Debug, Clone, Copy, PartialEq, Eq, Structural)]
pub enum CostVal {
    Finite { num: i64, den: i64 },
    NonFinite,
}

/// A well-formed cost keeps its denominator positive, so the sign of the cost
/// is the sign of its numerator and cross-multiplied comparisons are valid.
pub open spec fn cv_wf(c: CostVal) -> bool {
    match c {
        CostVal::Finite { num, den } => den >= 1,
        CostVal::NonFinite => true,
    }
}

pub open spec fn fits_i64(x: int) -> bool {
    i64::MIN <= x <= i64::MAX
}

/// The exact rational sum; `NonFinite` absorbs, as does leaving `i64` range.
pub open spec fn cv_add(a: CostVal, b: CostVal) -> CostVal {
    match (a, b) {
        (CostVal::Finite { num: n1, den: d1 }, CostVal::Finite { num: n2, den: d2 }) => {
            let n = n1 * d2 + n2 * d1;
            let d = d1 * d2;
            if fits_i64(n) && fits_i64(d) {
                CostVal::Finite { num: n as i64, den: d as i64 }
            } else {
                CostVal::NonFinite
            }
        },
        _ => CostVal::NonFinite,
    }
}

/// The exact rational difference.
pub open spec fn cv_sub(a: CostVal, b: CostVal) -> CostVal {
    match (a, b) {
        (CostVal::Finite { num: n1, den: d1 }, CostVal::Finite { num: n2, den: d2 }) => {
            let n = n1 * d2 - n2 * d1;
            let d = d1 * d2;
            if fits_i64(n) && fits_i64(d) {
                CostVal::Finite { num: n as i64, den: d as i64 }
            } else {
                CostVal::NonFinite
            }
        },
        _ => CostVal::NonFinite,
    }
}

/// The exact rational product.
pub open spec fn cv_mul(a: CostVal, b: CostVal) -> CostVal {
    match (a, b) {
        (CostVal::Finite { num: n1, den: d1 }, CostVal::Finite { num: n2, den: d2 }) => {
            let n = n1 * n2;
            let d = d1 * d2;
            if fits_i64(n) && fits_i64(d) {
                CostVal::Finite { num: n as i64, den: d as i64 }
            } else {
                CostVal::NonFinite
            }
        },
        _ => CostVal::NonFinite,
    }
}

/// The exact rational quotient; division by an exact zero is `NonFinite`.
/// The denominator's sign is normalised into the numerator.
pub open spec fn cv_div(a: CostVal, b: CostVal) -> CostVal {
    match (a, b) {
        (CostVal::Finite { num: n1, den: d1 }, CostVal::Finite { num: n2, den: d2 }) => {
            if n2 == 0 {
                CostVal::NonFinite
            } else {
                let n = if n2 < 0 { -(n1 * d2) } else { n1 * d2 };
                let d = if n2 < 0 { -(d1 * n2) } else { d1 * n2 };
                if fits_i64(n) && fits_i64(d) {
                    CostVal::Finite { num: n as i64, den: d as i64 }
                } else {
                    CostVal::NonFinite
                }
            }
        },
        _ => CostVal::NonFinite,
    }
}

/// Cross-multiplied order on well-formed costs, with `NonFinite` as the top.
pub open spec fn cv_le(a: CostVal, b: CostVal) -> bool {
    match (a, b) {
        (CostVal::Finite { num: n1, den: d1 }, CostVal::Finite { num: n2, den: d2 }) =>
            n1 * d2 <= n2 * d1,
        (CostVal::Finite { .. }, CostVal::NonFinite) => true,
        (CostVal::NonFinite, CostVal::Finite { .. }) => false,
        (CostVal::NonFinite, CostVal::NonFinite) => true,
    }
}

pub open spec fn cv_lt(a: CostVal, b: CostVal) -> bool {
    match (a, b) {
        (CostVal::Finite { num: n1, den: d1 }, CostVal::Finite { num: n2, den: d2 }) =>
            n1 * d2 < n2 * d1,
        (CostVal::Finite { .. }, CostVal::NonFinite) => true,
        _ => false,
    }
}

/// Equality of the represented rational values (representations may differ).
pub open spec fn cv_eq(a: CostVal, b: CostVal) -> bool {
    match (a, b) {
        (CostVal::Finite { num: n1, den: d1 }, CostVal::Finite { num: n2, den: d2 }) =>
            n1 * d2 == n2 * d1,
        (CostVal::NonFinite, CostVal::NonFinite) => true,
        _ => false,
    }
}

/// `|a * b| <= 2^126 - 2^63` whenever one factor is an `i64` and the other a
/// positive `i64`, so such products and their two-term sums stay inside
/// `i128`.
proof fn lemma_mixed_mul_bound(a: int, b: int)
    requires
        i64::MIN <= a <= i64::MAX,
        1 <= b <= i64::MAX,
    ensures
        -0x3fff_ffff_ffff_ffff_8000_0000_0000_0000 <= a * b
            <= 0x3fff_ffff_ffff_ffff_8000_0000_0000_0000,
{
    assert(-0x3fff_ffff_ffff_ffff_8000_0000_0000_0000 <= a * b
        <= 0x3fff_ffff_ffff_ffff_8000_0000_0000_0000) by (nonlinear_arith)
        requires
            -0x8000_0000_0000_0000 <= a <= 0x7fff_ffff_ffff_ffff,
            1 <= b <= 0x7fff_ffff_ffff_ffff,
    ;
}

/// `|a * b| <= 2^126` for any two `i64` factors, so a single product always
/// fits inside `i128`.
proof fn lemma_i64_mul_fits_i128(a: int, b: int)
    requires
        i64::MIN <= a <= i64::MAX,
        i64::MIN <= b <= i64::MAX,
    ensures
        -0x4000_0000_0000_0000_0000_0000_0000_0000 <= a * b
            <= 0x4000_0000_0000_0000_0000_0000_0000_0000,
{
    assert(-0x4000_0000_0000_0000_0000_0000_0000_0000 <= a * b
        <= 0x4000_0000_0000_0000_0000_0000_0000_0000) by (nonlinear_arith)
        requires
            -0x8000_0000_0000_0000 <= a <= 0x7fff_ffff_ffff_ffff,
            -0x8000_0000_0000_0000 <= b <= 0x7fff_ffff_ffff_ffff,
    ;
}

/// The cross-multiplied order is reflexive on well-formed costs.
pub proof fn lemma_cv_le_refl(a: CostVal)
    requires
        cv_wf(a),
    ensures
        cv_le(a, a),
{
}

/// A strictly smaller cost stays below anything the larger one is below.
pub proof fn lemma_cv_lt_le_trans(a: CostVal, b: CostVal, c: CostVal)
    requires
        cv_wf(a),
        cv_wf(b),
        cv_wf(c),
        cv_lt(a, b),
        cv_le(b, c),
    ensures
        cv_le(a, c),
{
    match (a, b, c) {
        (
            CostVal::Finite { num: n1, den: d1 },
            CostVal::Finite { num: n2, den: d2 },
            CostVal::Finite { num: n3, den: d3 },
        ) => {
            assert((n1 as int) * (d3 as int) <= (n3 as int) * (d1 as int)) by (nonlinear_arith)
                requires
                    (n1 as int) * (d2 as int) < (n2 as int) * (d1 as int),
                    (n2 as int) * (d3 as int) <= (n3 as int) * (d2 as int),
                    d1 >= 1,
                    d2 >= 1,
                    d3 >= 1,
            ;
        },
        _ => {},
    }
}

impl CostVal {
    /// The finite cost `num / den`.
    pub fn finite(num: i64, den: i64) -> (r: CostVal)
        requires
            den >= 1,
        ensures
            r == (CostVal::Finite { num, den }),
            cv_wf(r),
    {
        CostVal::Finite { num, den }
    }

    /// The exact cost of a solved state.
    pub fn zero() -> (r: CostVal)
        ensures
            r == (CostVal::Finite { num: 0i64, den: 1i64 }),
            cv_wf(r),
    {
        CostVal::Finite { num: 0, den: 1 }
    }

    /// The cost of a single move.
    pub fn one() -> (r: CostVal)
        ensures
            r == (CostVal::Finite { num: 1i64, den: 1i64 }),
            cv_wf(r),
    {
        CostVal::Finite { num: 1, den: 1 }
    }

    pub fn is_finite(self) -> (r: bool)
        ensures
            r == (self is Finite),
    {
        match self {
            CostVal::Finite { .. } => true,
            CostVal::NonFinite => false,
        }
    }

    pub fn add(self, other: CostVal) -> (r: CostVal)
        requires
            cv_wf(self),
            cv_wf(other),
        ensures
            r == cv_add(self, other),
            cv_wf(r),
    {
        match (self, other) {
            (CostVal::Finite { num: n1, den: d1 }, CostVal::Finite { num: n2, den: d2 }) => {
                proof {
                    lemma_mixed_mul_bound(n1 as int, d2 as int);
                    lemma_mixed_mul_bound(n2 as int, d1 as int);
                    lemma_mixed_mul_bound(d1 as int, d2 as int);
                    assert((d1 as int) * (d2 as int) >= 1) by (nonlinear_arith)
                        requires
                            d1 >= 1,
                            d2 >= 1,
                    ;
                }
                let n: i128 = (n1 as i128) * (d2 as i128) + (n2 as i128) * (d1 as i128);
                let d: i128 = (d1 as i128) * (d2 as i128);
                if i64::MIN as i128 <= n && n <= i64::MAX as i128 && d <= i64::MAX as i128 {
                    CostVal::Finite { num: n as i64, den: d as i64 }
                } else {
                    CostVal::NonFinite
                }
            },
            _ => CostVal::NonFinite,
        }
    }

    pub fn sub(self, other: CostVal) -> (r: CostVal)
        requires
            cv_wf(self),
            cv_wf(other),
        ensures
            r == cv_sub(self, other),
            cv_wf(r),
    {
        match (self, other) {
            (CostVal::Finite { num: n1, den: d1 }, CostVal::Finite { num: n2, den: d2 }) => {
                proof {
                    lemma_mixed_mul_bound(n1 as int, d2 as int);
                    lemma_mixed_mul_bound(n2 as int, d1 as int);
                    lemma_mixed_mul_bound(d1 as int, d2 as int);
                    assert((d1 as int) * (d2 as int) >= 1) by (nonlinear_arith)
                        requires
                            d1 >= 1,
                            d2 >= 1,
                    ;
                }
                let n: i128 = (n1 as i128) * (d2 as i128) - (n2 as i128) * (d1 as i128);
                let d: i128 = (d1 as i128) * (d2 as i128);
                if i64::MIN as i128 <= n && n <= i64::MAX as i128 && d <= i64::MAX as i128 {
                    CostVal::Finite { num: n as i64, den: d as i64 }
                } else {
                    CostVal::NonFinite
                }
            },
            _ => CostVal::NonFinite,
        }
    }

    pub fn mul(self, other: CostVal) -> (r: CostVal)
        requires
            cv_wf(self),
            cv_wf(other),
        ensures
            r == cv_mul(self, other),
            cv_wf(r),
    {
        match (self, other) {
            (CostVal::Finite { num: n1, den: d1 }, CostVal::Finite { num: n2, den: d2 }) => {
                proof {
                    lemma_i64_mul_fits_i128(n1 as int, n2 as int);
                    lemma_mixed_mul_bound(d1 as int, d2 as int);
                    assert((d1 as int) * (d2 as int) >= 1) by (nonlinear_arith)
                        requires
                            d1 >= 1,
                            d2 >= 1,
                    ;
                }
                let n: i128 = (n1 as i128) * (n2 as i128);
                let d: i128 = (d1 as i128) * (d2 as i128);
                if i64::MIN as i128 <= n && n <= i64::MAX as i128 && d <= i64::MAX as i128 {
                    CostVal::Finite { num: n as i64, den: d as i64 }
                } else {
                    CostVal::NonFinite
                }
            },
            _ => CostVal::NonFinite,
        }
    }

    pub fn div(self, other: CostVal) -> (r: CostVal)
        requires
            cv_wf(self),
            cv_wf(other),
        ensures
            r == cv_div(self, other),
            cv_wf(r),
    {
        match (self, other) {
            (CostVal::Finite { num: n1, den: d1 }, CostVal::Finite { num: n2, den: d2 }) => {
                if n2 == 0 {
                    CostVal::NonFinite
                } else {
                    proof {
                        lemma_mixed_mul_bound(n1 as int, d2 as int);
                        lemma_i64_mul_fits_i128(d1 as int, n2 as int);
                    }
                    let mut n: i128 = (n1 as i128) * (d2 as i128);
                    let mut d: i128 = (d1 as i128) * (n2 as i128);
                    if n2 < 0 {
                        n = -n;
                        d = -d;
                    }
                    if i64::MIN as i128 <= n && n <= i64::MAX as i128 && d <= i64::MAX as i128 {
                        proof {
                            assert(d >= 1) by (nonlinear_arith)
                                requires
                                    d1 >= 1,
                                    n2 != 0,
                                    d == if n2 < 0 { -((d1 as int) * (n2 as int)) } else {
                                        (d1 as int) * (n2 as int)
                                    },
                            ;
                        }
                        CostVal::Finite { num: n as i64, den: d as i64 }
                    } else {
                        CostVal::NonFinite
                    }
                }
            },
            _ => CostVal::NonFinite,
        }
    }

    pub fn le(self, other: CostVal) -> (r: bool)
        requires
            cv_wf(self),
            cv_wf(other),
        ensures
            r == cv_le(self, other),
    {
        match (self, other) {
            (CostVal::Finite { num: n1, den: d1 }, CostVal::Finite { num: n2, den: d2 }) => {
                proof {
                    lemma_mixed_mul_bound(n1 as int, d2 as int);
                    lemma_mixed_mul_bound(n2 as int, d1 as int);
                }
                (n1 as i128) * (d2 as i128) <= (n2 as i128) * (d1 as i128)
            },
            (CostVal::Finite { .. }, CostVal::NonFinite) => true,
            (CostVal::NonFinite, CostVal::Finite { .. }) => false,
            (CostVal::NonFinite, CostVal::NonFinite) => true,
        }
    }

    pub fn lt(self, other: CostVal) -> (r: bool)
        requires
            cv_wf(self),
            cv_wf(other),
        ensures
            r == cv_lt(self, other),
    {
        match (self, other) {
            (CostVal::Finite { num: n1, den: d1 }, CostVal::Finite { num: n2, den: d2 }) => {
                proof {
                    lemma_mixed_mul_bound(n1 as int, d2 as int);
                    lemma_mixed_mul_bound(n2 as int, d1 as int);
                }
                (n1 as i128) * (d2 as i128) < (n2 as i128) * (d1 as i128)
            },
            (CostVal::Finite { .. }, CostVal::NonFinite) => true,
            _ => false,
        }
    }

    /// Whether two costs denote the same rational value, regardless of the
    /// representation each happens to carry.
    pub fn eq_val(self, other: CostVal) -> (r: bool)
        requires
            cv_wf(self),
            cv_wf(other),
        ensures
            r == cv_eq(self, other),
    {
        match (self, other) {
            (CostVal::Finite { num: n1, den: d1 }, CostVal::Finite { num: n2, den: d2 }) => {
                proof {
                    lemma_mixed_mul_bound(n1 as int, d2 as int);
                    lemma_mixed_mul_bound(n2 as int, d1 as int);
                }
                (n1 as i128) * (d2 as i128) == (n2 as i128) * (d1 as i128)
            },
            (CostVal::NonFinite, CostVal::NonFinite) => true,
            _ => false,
        }
    }
}

} // verus!
