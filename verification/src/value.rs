//! The scalar value a graph node holds: an exact rational, or a single
//! absorbing non-finite value.
//!
//! A finite value is kept unreduced as `num / den` with `den >= 1`.  Any
//! result the representation cannot hold — division by zero, a numerator or
//! denominator past the 64-bit range, a power with a non-integer exponent —
//! collapses to [`Val::NonFinite`], which every operation then propagates,
//! the way IEEE arithmetic lets infinities and NaNs flow through.

use vstd::prelude::*;

verus! {

use vstd::arithmetic::power::{pow, lemma_pow0, lemma_pow1, lemma_pow_positive, lemma_pow_increases};

/// One scalar quantity.
#[derive(Clone, Copy, Debug)]
pub enum Val {
    Finite { num: i64, den: i64 },
    NonFinite,
}

/// A well-formed value: a finite value has a positive denominator.
pub open spec fn val_wf(v: Val) -> bool {
    match v {
        Val::Finite { num, den } => den >= 1,
        Val::NonFinite => true,
    }
}

/// The numerator of a finite value (meaningless for a non-finite one).
pub open spec fn numer(v: Val) -> int {
    match v {
        Val::Finite { num, den } => num as int,
        Val::NonFinite => 0,
    }
}

/// The denominator of a finite value (meaningless for a non-finite one).
pub open spec fn denom(v: Val) -> int {
    match v {
        Val::Finite { num, den } => den as int,
        Val::NonFinite => 0,
    }
}

pub open spec fn in_i64(x: int) -> bool {
    -0x8000_0000_0000_0000 <= x <= 0x7fff_ffff_ffff_ffff
}

/// The finite value `n / d` when both parts fit in 64 bits, else non-finite.
pub open spec fn fin_or_nf(n: int, d: int) -> Val {
    if in_i64(n) && in_i64(d) {
        Val::Finite { num: n as i64, den: d as i64 }
    } else {
        Val::NonFinite
    }
}

pub open spec fn zero_val() -> Val {
    Val::Finite { num: 0, den: 1 }
}

pub open spec fn one_val() -> Val {
    Val::Finite { num: 1, den: 1 }
}

pub open spec fn neg_one_val() -> Val {
    Val::Finite { num: -1i64, den: 1 }
}

/// Two values denote the same number: equal as rationals, or both non-finite.
pub open spec fn rat_eq(a: Val, b: Val) -> bool {
    if a is Finite && b is Finite {
        numer(a) * denom(b) == numer(b) * denom(a)
    } else {
        a is NonFinite && b is NonFinite
    }
}

/// A value that compares strictly greater than zero.
pub open spec fn val_pos(v: Val) -> bool {
    v is Finite && numer(v) > 0
}

/// Exact rational addition: `a/b + c/d == (a*d + c*b) / (b*d)`, unreduced.
pub open spec fn sum_spec(a: Val, b: Val) -> Val {
    if a is Finite && b is Finite {
        fin_or_nf(numer(a) * denom(b) + numer(b) * denom(a), denom(a) * denom(b))
    } else {
        Val::NonFinite
    }
}

/// Exact rational multiplication: `(a/b) * (c/d) == (a*c) / (b*d)`, unreduced.
pub open spec fn prod_spec(a: Val, b: Val) -> Val {
    if a is Finite && b is Finite {
        fin_or_nf(numer(a) * numer(b), denom(a) * denom(b))
    } else {
        Val::NonFinite
    }
}

/// `max(v, 0)`, the rectifier's forward value.  A non-finite value stays
/// non-finite.
pub open spec fn max_zero_spec(v: Val) -> Val {
    if v is NonFinite {
        Val::NonFinite
    } else if numer(v) > 0 {
        v
    } else {
        zero_val()
    }
}

/// Exact rational power with an integer exponent.  The exponent must be held
/// with denominator one; any other exponent yields non-finite, as does a
/// negative exponent on a zero base, or a result past the 64-bit range.
pub open spec fn powi_spec(b: Val, e: Val) -> Val {
    if b is Finite && e is Finite && denom(e) == 1 {
        let k = numer(e);
        if k >= 0 {
            fin_or_nf(pow(numer(b), k as nat), pow(denom(b), k as nat))
        } else if numer(b) == 0 {
            Val::NonFinite
        } else {
            let m = (-k) as nat;
            let pn = pow(numer(b), m);
            let pd = pow(denom(b), m);
            if pn > 0 {
                fin_or_nf(pd, pn)
            } else {
                fin_or_nf(-pd, -pn)
            }
        }
    } else {
        Val::NonFinite
    }
}

proof fn lemma_mul_full_range(x: int, y: int)
    by (nonlinear_arith)
    requires
        -0x8000_0000_0000_0000 <= x <= 0x7fff_ffff_ffff_ffff,
        -0x8000_0000_0000_0000 <= y <= 0x7fff_ffff_ffff_ffff,
    ensures
        -0x4000_0000_0000_0000_0000_0000_0000_0000 <= x * y
            <= 0x4000_0000_0000_0000_0000_0000_0000_0000,
{
}

proof fn lemma_mul_den_range(x: int, y: int)
    by (nonlinear_arith)
    requires
        -0x8000_0000_0000_0000 <= x <= 0x7fff_ffff_ffff_ffff,
        1 <= y <= 0x7fff_ffff_ffff_ffff,
    ensures
        -0x4000_0000_0000_0000_0000_0000_0000_0000 < x * y
            < 0x4000_0000_0000_0000_0000_0000_0000_0000,
{
}

proof fn lemma_mul_pos_pos(x: int, y: int)
    by (nonlinear_arith)
    requires
        1 <= x,
        1 <= y,
    ensures
        1 <= x * y,
{
}

proof fn lemma_mul_mag_range(x: int, y: int)
    by (nonlinear_arith)
    requires
        0 <= x <= 0x8000_0000_0000_0000,
        0 <= y <= 0x8000_0000_0000_0000,
    ensures
        0 <= x * y <= 0x4000_0000_0000_0000_0000_0000_0000_0000,
{
}

proof fn lemma_pow_one_base(m: nat)
    ensures
        pow(1, m) == 1,
    decreases m,
{
    reveal(pow);
    if m > 0 {
        lemma_pow_one_base((m - 1) as nat);
    }
}

proof fn lemma_pow_zero_base(m: nat)
    requires
        m >= 1,
    ensures
        pow(0, m) == 0,
{
    reveal(pow);
}

proof fn lemma_pow_neg_base(b: int, m: nat)
    ensures
        pow(-b, m) == if m % 2 == 0 {
            pow(b, m)
        } else {
            -pow(b, m)
        },
    decreases m,
{
    reveal(pow);
    if m > 0 {
        lemma_pow_neg_base(b, (m - 1) as nat);
        let p = pow(b, (m - 1) as nat);
        if (m - 1) % 2 == 0 {
            assert(pow(-b, (m - 1) as nat) == p);
            assert((-b) * p == -(b * p)) by (nonlinear_arith);
        } else {
            assert(pow(-b, (m - 1) as nat) == -p);
            assert((-b) * (-p) == b * p) by (nonlinear_arith);
        }
    }
}

/// `|b| ^ m` for a base that is the magnitude of a 64-bit integer; `None`
/// exactly when the power exceeds `2^63`.
fn pow_mag(b: u64, m: u64) -> (r: Option<u64>)
    requires
        b <= 0x8000_0000_0000_0000u64,
    ensures
        match r {
            Some(x) => x as int == pow(b as int, m as nat) && x <= 0x8000_0000_0000_0000u64,
            None => pow(b as int, m as nat) > 0x8000_0000_0000_0000,
        },
{
    if b == 0 {
        if m == 0 {
            proof {
                lemma_pow0(0);
            }
            Some(1)
        } else {
            proof {
                lemma_pow_zero_base(m as nat);
            }
            Some(0)
        }
    } else if b == 1 {
        proof {
            lemma_pow_one_base(m as nat);
        }
        Some(1)
    } else {
        let mut acc: u64 = 1;
        let mut j: u64 = 0;
        proof {
            lemma_pow0(b as int);
        }
        while j < m
            invariant
                2 <= b <= 0x8000_0000_0000_0000u64,
                j <= m,
                acc as int == pow(b as int, j as nat),
                acc <= 0x8000_0000_0000_0000u64,
            decreases m - j,
        {
            proof {
                lemma_mul_mag_range(acc as int, b as int);
                assert(pow(b as int, (j + 1) as nat) == (b as int) * pow(b as int, j as nat))
                    by {
                    reveal(pow);
                };
            }
            let next: u128 = (acc as u128) * (b as u128);
            if next > 0x8000_0000_0000_0000u128 {
                proof {
                    lemma_pow_increases(b as nat, (j + 1) as nat, m as nat);
                    assert((b as int) * (acc as int) == (acc as int) * (b as int))
                        by (nonlinear_arith);
                }
                return None;
            }
            acc = next as u64;
            j = j + 1;
            proof {
                assert((b as int) * pow(b as int, (j - 1) as nat)
                    == pow(b as int, (j - 1) as nat) * (b as int)) by (nonlinear_arith);
            }
        }
        Some(acc)
    }
}

impl Val {
    /// Exact rational addition; non-finite when an operand is non-finite or
    /// the unreduced result leaves the 64-bit range.
    pub fn plus(self, other: Val) -> (r: Val)
        requires
            val_wf(self),
            val_wf(other),
        ensures
            r == sum_spec(self, other),
            val_wf(r),
    {
        match (self, other) {
            (Val::Finite { num: an, den: ad }, Val::Finite { num: bn, den: bd }) => {
                proof {
                    lemma_mul_den_range(an as int, bd as int);
                    lemma_mul_den_range(bn as int, ad as int);
                    lemma_mul_pos_pos(ad as int, bd as int);
                    lemma_mul_den_range(ad as int, bd as int);
                }
                let n: i128 = (an as i128) * (bd as i128) + (bn as i128) * (ad as i128);
                let d: i128 = (ad as i128) * (bd as i128);
                if n >= -0x8000_0000_0000_0000i128 && n <= 0x7fff_ffff_ffff_ffffi128
                    && d <= 0x7fff_ffff_ffff_ffffi128 {
                    Val::Finite { num: n as i64, den: d as i64 }
                } else {
                    Val::NonFinite
                }
            },
            _ => Val::NonFinite,
        }
    }

    /// Exact rational multiplication; non-finite when an operand is
    /// non-finite or the unreduced result leaves the 64-bit range.
    pub fn times(self, other: Val) -> (r: Val)
        requires
            val_wf(self),
            val_wf(other),
        ensures
            r == prod_spec(self, other),
            val_wf(r),
    {
        match (self, other) {
            (Val::Finite { num: an, den: ad }, Val::Finite { num: bn, den: bd }) => {
                proof {
                    lemma_mul_full_range(an as int, bn as int);
                    lemma_mul_pos_pos(ad as int, bd as int);
                    lemma_mul_den_range(ad as int, bd as int);
                }
                let n: i128 = (an as i128) * (bn as i128);
                let d: i128 = (ad as i128) * (bd as i128);
                if n >= -0x8000_0000_0000_0000i128 && n <= 0x7fff_ffff_ffff_ffffi128
                    && d <= 0x7fff_ffff_ffff_ffffi128 {
                    Val::Finite { num: n as i64, den: d as i64 }
                } else {
                    Val::NonFinite
                }
            },
            _ => Val::NonFinite,
        }
    }

    /// Exact rational power with an integer exponent; non-finite when the
    /// exponent is not held as an integer with denominator one, when a
    /// negative exponent meets a zero base, or when the result leaves the
    /// 64-bit range.
    pub fn powi(self, e: Val) -> (r: Val)
        requires
            val_wf(self),
            val_wf(e),
        ensures
            r == powi_spec(self, e),
            val_wf(r),
    {
        let (bn, bd) = match self {
            Val::Finite { num, den } => (num, den),
            Val::NonFinite => {
                return Val::NonFinite;
            },
        };
        let (en, ed) = match e {
            Val::Finite { num, den } => (num, den),
            Val::NonFinite => {
                return Val::NonFinite;
            },
        };
        if ed != 1 {
            return Val::NonFinite;
        }
        let bneg: bool = bn < 0;
        let bmag: u64 = if bn < 0 {
            (-(bn as i128)) as u64
        } else {
            bn as u64
        };
        proof {
            assert(bmag as int == if bn < 0 {
                -(bn as int)
            } else {
                bn as int
            });
        }
        if en >= 0 {
            let m: u64 = en as u64;
            let sneg: bool = bneg && (m % 2 == 1);
            proof {
                if bneg {
                    lemma_pow_neg_base(bmag as int, m as nat);
                }
                lemma_pow_positive(bd as int, m as nat);
            }
            let rn = pow_mag(bmag, m);
            let rd = pow_mag(bd as u64, m);
            match (rn, rd) {
                (Some(nm), Some(dm)) => {
                    if dm <= 0x7fff_ffff_ffff_ffffu64 {
                        if sneg {
                            Val::Finite { num: (-(nm as i128)) as i64, den: dm as i64 }
                        } else {
                            if nm <= 0x7fff_ffff_ffff_ffffu64 {
                                Val::Finite { num: nm as i64, den: dm as i64 }
                            } else {
                                Val::NonFinite
                            }
                        }
                    } else {
                        Val::NonFinite
                    }
                },
                _ => Val::NonFinite,
            }
        } else {
            if bn == 0 {
                return Val::NonFinite;
            }
            let m: u64 = (-(en as i128)) as u64;
            let sneg: bool = bneg && (m % 2 == 1);
            proof {
                if bneg {
                    lemma_pow_neg_base(bmag as int, m as nat);
                }
                lemma_pow_positive(bmag as int, m as nat);
                lemma_pow_positive(bd as int, m as nat);
            }
            let rn = pow_mag(bmag, m);
            let rd = pow_mag(bd as u64, m);
            match (rn, rd) {
                (Some(nm), Some(dm)) => {
                    if !sneg {
                        if nm <= 0x7fff_ffff_ffff_ffffu64 && dm <= 0x7fff_ffff_ffff_ffffu64 {
                            Val::Finite { num: dm as i64, den: nm as i64 }
                        } else {
                            Val::NonFinite
                        }
                    } else {
                        if nm <= 0x7fff_ffff_ffff_ffffu64 {
                            Val::Finite { num: (-(dm as i128)) as i64, den: nm as i64 }
                        } else {
                            Val::NonFinite
                        }
                    }
                },
                _ => Val::NonFinite,
            }
        }
    }

    /// `max(self, 0)`.
    pub fn max_zero(self) -> (r: Val)
        requires
            val_wf(self),
        ensures
            r == max_zero_spec(self),
            val_wf(r),
    {
        match self {
            Val::Finite { num, den } => {
                if num > 0 {
                    self
                } else {
                    Val::Finite { num: 0, den: 1 }
                }
            },
            Val::NonFinite => Val::NonFinite,
        }
    }

    /// Whether the value compares strictly greater than zero.
    pub fn is_pos(self) -> (b: bool)
        requires
            val_wf(self),
        ensures
            b == val_pos(self),
    {
        match self {
            Val::Finite { num, den } => num > 0,
            Val::NonFinite => false,
        }
    }

    /// Whether two values denote the same number (cross-multiplied rational
    /// equality; two non-finite values count as the same).
    pub fn same_value(self, other: Val) -> (b: bool)
        requires
            val_wf(self),
            val_wf(other),
        ensures
            b == rat_eq(self, other),
    {
        match (self, other) {
            (Val::Finite { num: an, den: ad }, Val::Finite { num: bn, den: bd }) => {
                proof {
                    lemma_mul_den_range(an as int, bd as int);
                    lemma_mul_den_range(bn as int, ad as int);
                }
                (an as i128) * (bd as i128) == (bn as i128) * (ad as i128)
            },
            (Val::NonFinite, Val::NonFinite) => true,
            _ => false,
        }
    }
}

/// Law: addition of values is commutative at the surface — the sum is the
/// same whichever operand comes first.
pub proof fn lemma_sum_comm(a: Val, b: Val)
    ensures
        sum_spec(a, b) == sum_spec(b, a),
{
}

/// Law: multiplication of values is commutative at the surface.
pub proof fn lemma_prod_comm(a: Val, b: Val)
    ensures
        prod_spec(a, b) == prod_spec(b, a),
{
}

/// Law: for finite operands whose unreduced sum fits in 64 bits, the sum is
/// finite and is exactly the rational sum of the operands:
/// `r == a/b + c/d`, stated cross-multiplied.
pub proof fn lemma_sum_exact(a: Val, b: Val)
    requires
        val_wf(a),
        val_wf(b),
        a is Finite,
        b is Finite,
        in_i64(numer(a) * denom(b) + numer(b) * denom(a)),
        in_i64(denom(a) * denom(b)),
    ensures
        sum_spec(a, b) is Finite,
        numer(sum_spec(a, b)) * (denom(a) * denom(b))
            == (numer(a) * denom(b) + numer(b) * denom(a)) * denom(sum_spec(a, b)),
{
}

/// Law: subtraction is built as `a + (b * -1)`; for finite operands whose
/// parts fit in 64 bits it is the exact rational difference
/// `(a*d - c*b) / (b*d)`.
pub proof fn lemma_diff_exact(a: Val, b: Val)
    requires
        val_wf(a),
        val_wf(b),
        a is Finite,
        b is Finite,
        in_i64(-numer(b)),
        in_i64(numer(a) * denom(b) - numer(b) * denom(a)),
        in_i64(denom(a) * denom(b)),
    ensures
        sum_spec(a, prod_spec(b, neg_one_val())) is Finite,
        numer(sum_spec(a, prod_spec(b, neg_one_val()))) == numer(a) * denom(b) - numer(b)
            * denom(a),
        denom(sum_spec(a, prod_spec(b, neg_one_val()))) == denom(a) * denom(b),
{
    let nb = prod_spec(b, neg_one_val());
    assert(numer(nb) == -numer(b) && denom(nb) == denom(b));
    assert((-numer(b)) * denom(a) == -(numer(b) * denom(a))) by (nonlinear_arith);
}

/// Law: division is built as `a * b^(-1)`; for a non-zero finite divisor and
/// parts that fit in 64 bits it is the exact rational quotient, stated
/// cross-multiplied: `r * (b_den * a_num') == ...`, i.e.
/// `r == (a_num * b_den) / (a_den * b_num)`.
pub proof fn lemma_quot_exact(a: Val, b: Val)
    requires
        val_wf(a),
        val_wf(b),
        a is Finite,
        b is Finite,
        numer(b) != 0,
        in_i64(-numer(b)),
        in_i64(numer(a) * denom(b)),
        in_i64(-(numer(a) * denom(b))),
        in_i64(denom(a) * numer(b)),
        in_i64(-(denom(a) * numer(b))),
    ensures
        prod_spec(a, powi_spec(b, neg_one_val())) is Finite,
        numer(prod_spec(a, powi_spec(b, neg_one_val()))) * (denom(a) * numer(b)) == (numer(a)
            * denom(b)) * denom(prod_spec(a, powi_spec(b, neg_one_val()))),
{
    lemma_pow1(numer(b));
    lemma_pow1(denom(b));
    let inv = powi_spec(b, neg_one_val());
    if numer(b) > 0 {
        assert(inv == Val::Finite { num: denom(b) as i64, den: numer(b) as i64 });
    } else {
        assert(inv == Val::Finite { num: (-denom(b)) as i64, den: (-numer(b)) as i64 });
        assert(numer(a) * (-denom(b)) == -(numer(a) * denom(b))) by (nonlinear_arith);
        assert(denom(a) * (-numer(b)) == -(denom(a) * numer(b))) by (nonlinear_arith);
        assert((-(numer(a) * denom(b))) * (denom(a) * numer(b)) == (numer(a) * denom(b)) * (-(
        denom(a) * numer(b)))) by (nonlinear_arith);
    }
}

/// Law: a power with a non-negative integer exponent whose parts fit in 64
/// bits is exactly `num^k / den^k`.
pub proof fn lemma_powi_exact(b: Val, e: Val)
    requires
        val_wf(b),
        val_wf(e),
        b is Finite,
        e is Finite,
        denom(e) == 1,
        numer(e) >= 0,
        in_i64(pow(numer(b), numer(e) as nat)),
        in_i64(pow(denom(b), numer(e) as nat)),
    ensures
        powi_spec(b, e) is Finite,
        numer(powi_spec(b, e)) == pow(numer(b), numer(e) as nat),
        denom(powi_spec(b, e)) == pow(denom(b), numer(e) as nat),
{
}

/// Law: for finite operands whose unreduced product fits in 64 bits, the
/// product is finite and is exactly the rational product of the operands.
pub proof fn lemma_prod_exact(a: Val, b: Val)
    requires
        val_wf(a),
        val_wf(b),
        a is Finite,
        b is Finite,
        in_i64(numer(a) * numer(b)),
        in_i64(denom(a) * denom(b)),
    ensures
        prod_spec(a, b) is Finite,
        numer(prod_spec(a, b)) * (denom(a) * denom(b))
            == (numer(a) * numer(b)) * denom(prod_spec(a, b)),
{
}

} // verus!
