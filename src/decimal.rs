//! A fixed-point decimal: a signed integer part and an unsigned fractional
//! part counted in units of 10^-19.
use vstd::arithmetic::div_mod::{
    lemma_fundamental_div_mod, lemma_fundamental_div_mod_converse, lemma_mod_bound,
};
use vstd::prelude::*;

verus! {

/// One whole unit, counted in fractional units: 10^19.
pub const FRACT_BASE: u64 = 10_000_000_000_000_000_000;

pub open spec fn base() -> int {
    FRACT_BASE as int
}

/// A decimal number `trunc + fract / 10^19`, with `0 <= fract < 10^19`.
///
/// Equality is field by field; the order compares `trunc` first and breaks
/// ties by `fract`.
#[derive(Clone, Copy, Debug, PartialEq, Eq, Structural, PartialOrd, Ord, Hash)]
pub struct ExactDecimal {
    pub trunc: i64,
    pub fract: u64,
}

/// One more whole unit adds one base to the scaled value.
proof fn lemma_carry(t: int)
    ensures
        (t + 1) * base() == t * base() + base(),
{
    assert((t + 1) * base() == t * base() + base()) by (nonlinear_arith);
}

/// With `0 <= f < b`, the number `t * b + f` lies below `k * b` exactly when `t < k`.
proof fn lemma_unit_below(t: int, f: int, k: int, b: int)
    requires
        b > 0,
        0 <= f < b,
    ensures
        (t * b + f < k * b) == (t < k),
{
    if t < k {
        assert(t * b + b <= k * b) by (nonlinear_arith)
            requires
                t < k,
                b > 0,
        ;
    } else {
        assert(t * b >= k * b) by (nonlinear_arith)
            requires
                t >= k,
                b > 0,
        ;
    }
}

/// The scaled values that an `ExactDecimal` can hold: those whose whole part fits in an `i64`.
pub open spec fn fits(v: int) -> bool {
    i64::MIN * base() <= v < (i64::MAX + 1) * base()
}

/// `n / d` rounded toward negative infinity, for `d != 0`.
pub open spec fn floor_div(n: int, d: int) -> int {
    if d > 0 {
        n / d
    } else {
        (-n) / (-d)
    }
}

/// `n / d` for a magnitude `na` of `n` and a positive `d`, rounded toward negative infinity.
fn floor_div_magnitude(negative: bool, na: u128, d: u128) -> (r: i128)
    requires
        d > 0,
        na < 0x8000_0000_0000_0000_0000_0000_0000_0000u128,
    ensures
        r == (if negative { -(na as int) } else { na as int }) / (d as int),
{
    let q: u128 = na / d;
    let rem: u128 = na % d;
    proof {
        lemma_fundamental_div_mod(na as int, d as int);
        lemma_mod_bound(na as int, d as int);
        assert(q <= na) by (nonlinear_arith)
            requires na == d * q + rem, d > 0, rem >= 0, q >= 0;
    }
    if !negative {
        q as i128
    } else if rem == 0 {
        proof {
            assert(-(na as int) == (-(q as int)) * d) by (nonlinear_arith)
                requires na == d * q + rem, rem == 0;
            lemma_fundamental_div_mod_converse(-(na as int), d as int, -(q as int), 0);
        }
        -(q as i128)
    } else {
        proof {
            assert(-(na as int) == (-(q as int) - 1) * d + (d - rem)) by (nonlinear_arith)
                requires na == d * q + rem;
            lemma_fundamental_div_mod_converse(-(na as int), d as int, -(q as int) - 1, (d - rem) as int);
        }
        -(q as i128) - 1
    }
}

/// Dividing both operands by the same positive factor keeps the rounded-down quotient.
proof fn lemma_floor_div_cancel(n: int, d: int, c: int)
    requires
        d != 0,
        c > 0,
    ensures
        floor_div(n * c, d * c) == floor_div(n, d),
{
    let (nn, dd) = if d > 0 { (n, d) } else { (-n, -d) };
    let q = nn / dd;
    let r = nn % dd;
    lemma_fundamental_div_mod(nn, dd);
    lemma_mod_bound(nn, dd);
    assert(nn * c == q * (dd * c) + r * c && 0 <= r * c < dd * c) by (nonlinear_arith)
        requires nn == dd * q + r, 0 <= r < dd, c > 0;
    lemma_fundamental_div_mod_converse(nn * c, dd * c, q, r * c);
    assert(-(n * c) == (-n) * c && (-d) * c == -(d * c)) by (nonlinear_arith);
}

impl ExactDecimal {
    /// The fractional part stays below one whole unit.
    pub open spec fn wf(self) -> bool {
        self.fract < FRACT_BASE
    }

    /// The value counted in units of 10^-19.
    pub open spec fn scaled(self) -> int {
        self.trunc * base() + self.fract
    }

    /// Builds `trunc + fract / 10^19`, carrying whole units out of `fract`.
    pub fn new(trunc: i64, fract: u64) -> (r: ExactDecimal)
        requires
            fract < FRACT_BASE || trunc < i64::MAX,
        ensures
            r.wf(),
            r.scaled() == trunc * base() + fract,
    {
        // a u64 holds less than two whole units, so one carry suffices
        if fract >= FRACT_BASE {
            proof {
                lemma_carry(trunc as int);
            }
            ExactDecimal { trunc: trunc + 1, fract: fract - FRACT_BASE }
        } else {
            ExactDecimal { trunc, fract }
        }
    }

    /// The decimal whose scaled value is `v`.
    pub fn from_scaled(v: i128) -> (r: ExactDecimal)
        requires
            fits(v as int),
        ensures
            r.wf(),
            r.scaled() == v,
    {
        let b: u128 = FRACT_BASE as u128;
        if v >= 0 {
            let m: u128 = v as u128;
            let t: u128 = m / b;
            let f: u128 = m % b;
            proof {
                lemma_fundamental_div_mod(m as int, b as int);
                lemma_mod_bound(m as int, b as int);
                assert(t * b == b * t) by (nonlinear_arith);
                lemma_unit_below(t as int, f as int, i64::MAX + 1, base());
            }
            ExactDecimal { trunc: t as i64, fract: f as u64 }
        } else {
            let m: u128 = (-v) as u128;
            let q: u128 = m / b;
            let rem: u128 = m % b;
            proof {
                lemma_fundamental_div_mod(m as int, b as int);
                lemma_mod_bound(m as int, b as int);
                assert(q * b == b * q) by (nonlinear_arith);
                lemma_unit_below(q as int, rem as int, -i64::MIN + 1, base());
            }
            if rem == 0 {
                proof {
                    assert((-(q as int)) * base() == -(q * b)) by (nonlinear_arith)
                        requires b == base();
                }
                ExactDecimal { trunc: -(q as i128) as i64, fract: 0 }
            } else {
                proof {
                    assert((-(q as int) - 1) * base() == -(q * b) - b) by (nonlinear_arith)
                        requires b == base();
                    lemma_unit_below(-(q as int) - 1, (b - rem) as int, i64::MIN as int, base());
                }
                ExactDecimal { trunc: (-(q as i128) - 1) as i64, fract: (b - rem) as u64 }
            }
        }
    }

    /// Zero.
    pub fn zero() -> (r: ExactDecimal)
        ensures
            r.wf(),
            r.scaled() == 0,
            r.is_zero_spec(),
    {
        ExactDecimal { trunc: 0, fract: 0 }
    }

    /// One whole unit, `1.0`.
    pub fn one() -> (r: ExactDecimal)
        ensures
            r.wf(),
            r.scaled() == base(),
            r.is_one_spec(),
    {
        ExactDecimal { trunc: 1, fract: 0 }
    }

    /// Euler's number to nineteen fractional digits, `2.7182818284590452353`.
    pub fn euler() -> (r: ExactDecimal)
        ensures
            r.wf(),
            r.trunc == 2,
            r.fract == 7182818284590452353,
    {
        ExactDecimal { trunc: 2, fract: 7182818284590452353 }
    }

    pub open spec fn is_zero_spec(self) -> bool {
        self.trunc == 0 && self.fract == 0
    }

    pub open spec fn is_one_spec(self) -> bool {
        self.trunc == 1 && self.fract == 0
    }

    pub open spec fn has_fraction_spec(self) -> bool {
        self.fract != 0
    }

    /// Both fields are zero.
    pub fn is_zero(&self) -> (r: bool)
        ensures
            r == self.is_zero_spec(),
    {
        self.trunc == 0 && self.fract == 0
    }

    /// The fractional part is not zero.
    pub fn has_fraction(&self) -> (r: bool)
        ensures
            r == self.has_fraction_spec(),
    {
        self.fract != 0
    }

    /// The order: by `trunc`, ties broken by `fract`.
    pub open spec fn lt_spec(self, other: ExactDecimal) -> bool {
        self.trunc < other.trunc || (self.trunc == other.trunc && self.fract < other.fract)
    }

    pub open spec fn le_spec(self, other: ExactDecimal) -> bool {
        self.lt_spec(other) || self == other
    }

    /// Strictly below `other` in the order.
    pub fn less_than(&self, other: &ExactDecimal) -> (r: bool)
        ensures
            r == self.lt_spec(*other),
    {
        self.trunc < other.trunc || (self.trunc == other.trunc && self.fract < other.fract)
    }

    /// Below or equal to `other` in the order.
    pub fn less_or_equal(&self, other: &ExactDecimal) -> (r: bool)
        ensures
            r == self.le_spec(*other),
    {
        self.trunc < other.trunc || (self.trunc == other.trunc && self.fract <= other.fract)
    }

    /// The sum. When either operand is zero the other is returned as it is;
    /// otherwise the fractional parts are added and a whole unit is carried
    /// once they reach `10^19`.
    pub fn add(&self, other: &ExactDecimal) -> (r: ExactDecimal)
        requires
            self.wf(),
            other.wf(),
            fits(self.scaled() + other.scaled()),
        ensures
            r.wf(),
            r.scaled() == self.scaled() + other.scaled(),
            self.is_zero_spec() ==> r == *other,
            other.is_zero_spec() ==> r == *self,
    {
        if self.is_zero() {
            *other
        } else if other.is_zero() {
            *self
        } else {
            Self::from_scaled(self.scaled_value() + other.scaled_value())
        }
    }

    /// The difference `self - other`, borrowing a whole unit when the
    /// fractional part of `other` is the larger.
    pub fn subtract(&self, other: &ExactDecimal) -> (r: ExactDecimal)
        requires
            self.wf(),
            other.wf(),
            fits(self.scaled() - other.scaled()),
        ensures
            r.wf(),
            r.scaled() == self.scaled() - other.scaled(),
    {
        Self::from_scaled(self.scaled_value() - other.scaled_value())
    }

    /// The operand shapes for which the product is defined: a zero, a one,
    /// or two whole numbers.
    pub open spec fn mul_supported(self, other: ExactDecimal) -> bool {
        self.is_zero_spec() || other.is_zero_spec() || self.is_one_spec() || other.is_one_spec()
            || (self.fract == 0 && other.fract == 0)
    }

    /// Whether `multiply` is defined on these operands.
    pub fn can_multiply(&self, other: &ExactDecimal) -> (r: bool)
        ensures
            r == self.mul_supported(*other),
    {
        self.is_zero() || other.is_zero() || (self.trunc == 1 && self.fract == 0) || (
        other.trunc == 1 && other.fract == 0) || (self.fract == 0 && other.fract == 0)
    }

    /// The product, on the operand shapes of `mul_supported`.
    pub fn multiply(&self, other: &ExactDecimal) -> (r: ExactDecimal)
        requires
            self.wf(),
            other.wf(),
            self.mul_supported(*other),
            self.fract == 0 && other.fract == 0 ==> i64::MIN <= self.trunc * other.trunc
                <= i64::MAX,
        ensures
            r.wf(),
            r.scaled() * base() == self.scaled() * other.scaled(),
    {
        let ghost (x, y) = (self.scaled(), other.scaled());
        if self.is_zero() || other.is_zero() {
            proof {
                assert(x * y == 0) by (nonlinear_arith)
                    requires x == 0 || y == 0;
            }
            Self::zero()
        } else if self.trunc == 1 && self.fract == 0 {
            proof {
                assert(y * x == x * y) by (nonlinear_arith);
            }
            *other
        } else if other.trunc == 1 && other.fract == 0 {
            *self
        } else {
            let t: i128 = self.trunc as i128 * other.trunc as i128;
            proof {
                assert(t * base() * base() == (self.trunc * base()) * (other.trunc * base()))
                    by (nonlinear_arith)
                    requires t == self.trunc * other.trunc;
            }
            ExactDecimal { trunc: t as i64, fract: 0 }
        }
    }

    /// The operand shapes for which the quotient is defined: a non-zero
    /// divisor, and a zero dividend, a divisor of one, or two whole numbers.
    pub open spec fn div_supported(self, other: ExactDecimal) -> bool {
        !other.is_zero_spec() && (self.is_zero_spec() || other.is_one_spec() || (self.fract == 0
            && other.fract == 0))
    }

    /// Whether `divide` is defined on these operands.
    pub fn can_divide(&self, other: &ExactDecimal) -> (r: bool)
        ensures
            r == self.div_supported(*other),
    {
        !other.is_zero() && (self.is_zero() || (other.trunc == 1 && other.fract == 0) || (
        self.fract == 0 && other.fract == 0))
    }

    /// The quotient `self / other`, on the operand shapes of `div_supported`,
    /// to nineteen fractional digits rounded toward negative infinity.
    pub fn divide(&self, other: &ExactDecimal) -> (r: ExactDecimal)
        requires
            self.wf(),
            other.wf(),
            self.div_supported(*other),
            fits(floor_div(self.scaled() * base(), other.scaled())),
        ensures
            r.wf(),
            r.scaled() == floor_div(self.scaled() * base(), other.scaled()),
    {
        let ghost (x, y) = (self.scaled(), other.scaled());
        if self.is_zero() {
            proof {
                lemma_fundamental_div_mod_converse(0, if y > 0 { y } else { -y }, 0, 0);
            }
            Self::zero()
        } else if other.trunc == 1 && other.fract == 0 {
            proof {
                lemma_fundamental_div_mod_converse(x * base(), base(), x, 0);
            }
            *self
        } else {
            let n: i128 = self.trunc as i128 * FRACT_BASE as i128;
            let d: i128 = other.trunc as i128;
            proof {
                assert(i64::MIN * base() <= n <= i64::MAX * base()) by (nonlinear_arith)
                    requires n == self.trunc * base(), i64::MIN <= self.trunc <= i64::MAX;
                assert(x * base() == n * base() && y == d * base());
                lemma_floor_div_cancel(n as int, d as int, base());
            }
            let v: i128 = if d > 0 {
                if n >= 0 {
                    floor_div_magnitude(false, n as u128, d as u128)
                } else {
                    floor_div_magnitude(true, (-n) as u128, d as u128)
                }
            } else {
                if n > 0 {
                    floor_div_magnitude(true, n as u128, (-d) as u128)
                } else {
                    floor_div_magnitude(false, (-n) as u128, (-d) as u128)
                }
            };
            Self::from_scaled(v)
        }
    }

    /// The scaled value, computed.
    pub fn scaled_value(&self) -> (r: i128)
        requires
            self.wf(),
        ensures
            r == self.scaled(),
    {
        proof {
            assert(i64::MIN * base() <= self.trunc * base() <= i64::MAX * base()) by (nonlinear_arith)
                requires i64::MIN <= self.trunc <= i64::MAX;
        }
        self.trunc as i128 * FRACT_BASE as i128 + self.fract as i128
    }
}

/// The order on `ExactDecimal` is a strict total order: irreflexive,
/// antisymmetric, transitive, and any two values are equal or comparable.
pub proof fn lemma_order_strict_total(a: ExactDecimal, b: ExactDecimal, c: ExactDecimal)
    ensures
        !a.lt_spec(a),
        a.lt_spec(b) ==> !b.lt_spec(a),
        a.lt_spec(b) && b.lt_spec(c) ==> a.lt_spec(c),
        a.lt_spec(b) || a == b || b.lt_spec(a),
{
}

/// On well-formed values the order is the order of the scaled values, and
/// equality is equality of the scaled values.
pub proof fn lemma_order_matches_value(a: ExactDecimal, b: ExactDecimal)
    requires
        a.wf(),
        b.wf(),
    ensures
        a.lt_spec(b) == (a.scaled() < b.scaled()),
        (a == b) == (a.scaled() == b.scaled()),
{
    lemma_unit_below(a.trunc as int, a.fract as int, b.trunc as int, base());
    lemma_unit_below(b.trunc as int, b.fract as int, a.trunc as int, base());
}

} // verus!
