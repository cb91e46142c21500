//! Exact rational time values.
//!
//! A `RationalTime` is a reduced fraction `numer / denom` of seconds with a
//! positive denominator, so two values are equal exactly when their fields
//! are equal. Arithmetic is exact and reports overflow instead of rounding.
use vstd::prelude::*;

verus! {

/// Greatest common divisor by Euclid's recursion.
pub open spec fn gcd(a: nat, b: nat) -> nat
    decreases b,
{
    if b == 0 {
        a
    } else {
        gcd(b, a % b)
    }
}

pub open spec fn abs(x: int) -> nat {
    if x < 0 {
        (-x) as nat
    } else {
        x as nat
    }
}

/// The fraction `n / d` (with `d > 0`) divided through by the gcd of its parts.
pub open spec fn reduce(n: int, d: int) -> (int, int) {
    let a = abs(n) as int;
    let g = gcd(abs(n), d as nat) as int;
    (if n < 0 {
        -(a / g)
    } else {
        a / g
    }, d / g)
}

/// `(n, d)` is a fraction in lowest terms with a positive denominator.
pub open spec fn reduced(p: (int, int)) -> bool {
    p.1 > 0 && gcd(abs(p.0), p.1 as nat) == 1
}

/// Both parts of the fraction are representable as `i64`.
pub open spec fn fits(p: (int, int)) -> bool {
    i64::MIN <= p.0 <= i64::MAX && 0 < p.1 <= i64::MAX
}

/// The reduced form of `numer / denom` for any non-zero denominator.
pub open spec fn canonical(numer: int, denom: int) -> (int, int) {
    if denom < 0 {
        reduce(-numer, -denom)
    } else {
        reduce(numer, denom)
    }
}

pub open spec fn rat_add(a: (int, int), b: (int, int)) -> (int, int) {
    reduce(a.0 * b.1 + b.0 * a.1, a.1 * b.1)
}

pub open spec fn rat_sub(a: (int, int), b: (int, int)) -> (int, int) {
    reduce(a.0 * b.1 - b.0 * a.1, a.1 * b.1)
}

/// `a < b` as rational numbers (for positive denominators).
pub open spec fn rat_lt(a: (int, int), b: (int, int)) -> bool {
    a.0 * b.1 < b.0 * a.1
}

/// `a <= b` as rational numbers (for positive denominators).
pub open spec fn rat_le(a: (int, int), b: (int, int)) -> bool {
    !rat_lt(b, a)
}

pub open spec fn rat_zero() -> (int, int) {
    (0, 1)
}

/// Errors of exact time arithmetic.
#[derive(Clone, Copy, Debug, PartialEq, Eq, Structural)]
pub enum TimeError {
    /// A fraction was given a zero denominator.
    ZeroDenominator,
    /// A result does not fit the exact `i64` representation.
    Overflow,
}

/// An exact rational number of seconds, always kept in lowest terms.
#[derive(Clone, Copy, Debug, PartialEq, Eq, Structural)]
pub struct RationalTime {
    numer: i64,
    denom: i64,
}

impl View for RationalTime {
    type V = (int, int);

    closed spec fn view(&self) -> (int, int) {
        (self.numer as int, self.denom as int)
    }
}

// ---------------------------------------------------------------------------
// gcd facts
// ---------------------------------------------------------------------------

pub proof fn lemma_gcd_divides(a: nat, b: nat)
    requires
        b > 0,
    ensures
        gcd(a, b) > 0,
        gcd(a, b) <= b,
        (a as int) % (gcd(a, b) as int) == 0,
        (b as int) % (gcd(a, b) as int) == 0,
    decreases b,
{
    let r = a % b;
    vstd::arithmetic::div_mod::lemma_mod_pos_bound(a as int, b as int);
    if r == 0 {
        assert(gcd(b, 0) == b);
        assert(gcd(a, b) == b);
        vstd::arithmetic::div_mod::lemma_mod_self_0(b as int);
    } else {
        lemma_gcd_divides(b, r);
        let g: int = gcd(b, r) as int;
        assert(gcd(a, b) == g);
        let ai: int = a as int;
        let bi: int = b as int;
        let ri: int = r as int;
        let q: int = ai / bi;
        vstd::arithmetic::div_mod::lemma_fundamental_div_mod(ai, bi);
        let kb: int = bi / g;
        let kr: int = ri / g;
        vstd::arithmetic::div_mod::lemma_fundamental_div_mod(bi, g);
        vstd::arithmetic::div_mod::lemma_fundamental_div_mod(ri, g);
        let m: int = q * kb + kr;
        assert(ai == m * g) by (nonlinear_arith)
            requires
                ai == bi * q + ri,
                bi == g * kb,
                ri == g * kr,
                m == q * kb + kr,
        ;
        vstd::arithmetic::div_mod::lemma_mod_multiples_basic(m, g);
    }
}

/// gcd(k * a, k * b) == k * gcd(a, b)
pub proof fn lemma_gcd_scale(k: nat, a: nat, b: nat)
    requires
        k > 0,
    ensures
        gcd(k * a, k * b) == k * gcd(a, b),
    decreases b,
{
    if b == 0 {
        assert(k * b == 0) by (nonlinear_arith)
            requires
                b == 0,
        ;
    } else {
        let q = a / b;
        let r = a % b;
        vstd::arithmetic::div_mod::lemma_fundamental_div_mod(a as int, b as int);
        vstd::arithmetic::div_mod::lemma_mod_pos_bound(a as int, b as int);
        assert(k * a == q * (k * b) + k * r) by (nonlinear_arith)
            requires
                a == b * q + r,
        ;
        assert(0 <= k * r < k * b) by (nonlinear_arith)
            requires
                0 <= r < b,
                k > 0,
        ;
        assert(k * b > 0) by (nonlinear_arith)
            requires
                k > 0,
                b > 0,
        ;
        vstd::arithmetic::div_mod::lemma_fundamental_div_mod_converse(
            (k * a) as int,
            (k * b) as int,
            q as int,
            (k * r) as int,
        );
        assert((k * a) % (k * b) == k * r);
        lemma_gcd_scale(k, b, r);
        assert(gcd(k * a, k * b) == gcd(k * b, (k * a) % (k * b)));
    }
}

/// Dividing a fraction with positive denominator by the gcd of its parts
/// yields a fraction in lowest terms.
pub proof fn lemma_reduce_reduced(n: int, d: int)
    requires
        d > 0,
    ensures
        reduced(reduce(n, d)),
        gcd(abs(n), d as nat) > 0,
        (abs(n) as int) % (gcd(abs(n), d as nat) as int) == 0,
        d % (gcd(abs(n), d as nat) as int) == 0,
{
    let a = abs(n);
    let dn = d as nat;
    lemma_gcd_divides(a, dn);
    let g = gcd(a, dn);
    let a2 = a / g;
    let d2 = dn / g;
    vstd::arithmetic::div_mod::lemma_fundamental_div_mod(a as int, g as int);
    vstd::arithmetic::div_mod::lemma_fundamental_div_mod(dn as int, g as int);
    assert(a == g * a2);
    assert(dn == g * d2);
    lemma_gcd_scale(g, a2, d2);
    assert(gcd(g * a2, g * d2) == g * gcd(a2, d2));
    assert(g * gcd(a2, d2) == g);
    assert(gcd(a2, d2) == 1) by (nonlinear_arith)
        requires
            g * gcd(a2, d2) == g,
            g > 0,
    ;
    assert(d2 > 0) by (nonlinear_arith)
        requires
            dn == g * d2,
            dn > 0,
            g > 0,
            d2 >= 0,
    ;
    let r = reduce(n, d);
    assert(abs(r.0) == a2);
    assert(r.1 == d2);
}

/// The reduced fraction denotes the same rational number.
pub proof fn lemma_reduce_same_value(n: int, d: int)
    requires
        d > 0,
    ensures
        reduce(n, d).0 * d == n * reduce(n, d).1,
{
    lemma_reduce_reduced(n, d);
    let a = abs(n);
    let g = gcd(a, d as nat) as int;
    let a2 = a as int / g;
    let d2 = d / g;
    vstd::arithmetic::div_mod::lemma_fundamental_div_mod(a as int, g);
    vstd::arithmetic::div_mod::lemma_fundamental_div_mod(d, g);
    assert(a2 * d == a * d2) by (nonlinear_arith)
        requires
            a == g * a2,
            d == g * d2,
    ;
    if n < 0 {
        assert((-a2) * d == n * d2) by (nonlinear_arith)
            requires
                a2 * d == a * d2,
                a == -n,
        ;
    }
}

/// Strict order on rationals with positive denominators is transitive.
pub proof fn lemma_lt_trans(a: (int, int), b: (int, int), c: (int, int))
    requires
        a.1 > 0,
        b.1 > 0,
        c.1 > 0,
        rat_lt(a, b),
        rat_le(b, c),
    ensures
        rat_lt(a, c),
{
    assert(a.0 * c.1 < c.0 * a.1) by (nonlinear_arith)
        requires
            a.1 > 0,
            b.1 > 0,
            c.1 > 0,
            a.0 * b.1 < b.0 * a.1,
            b.0 * c.1 <= c.0 * b.1,
    {
        assert(a.0 * b.1 * c.1 < b.0 * a.1 * c.1);
        assert(b.0 * c.1 * a.1 <= c.0 * b.1 * a.1);
        assert(a.0 * c.1 * b.1 < c.0 * a.1 * b.1);
    }
}

/// Non-strict order on rationals with positive denominators is transitive.
pub proof fn lemma_le_trans(a: (int, int), b: (int, int), c: (int, int))
    requires
        a.1 > 0,
        b.1 > 0,
        c.1 > 0,
        rat_le(a, b),
        rat_le(b, c),
    ensures
        rat_le(a, c),
{
    assert(a.0 * c.1 <= c.0 * a.1) by (nonlinear_arith)
        requires
            a.1 > 0,
            b.1 > 0,
            c.1 > 0,
            a.0 * b.1 <= b.0 * a.1,
            b.0 * c.1 <= c.0 * b.1,
    {
        assert(a.0 * b.1 * c.1 <= b.0 * a.1 * c.1);
        assert(b.0 * c.1 * a.1 <= c.0 * b.1 * a.1);
        assert(a.0 * c.1 * b.1 <= c.0 * a.1 * b.1);
    }
}

// ---------------------------------------------------------------------------
// executable helpers
// ---------------------------------------------------------------------------

fn gcd_u128(a: u128, b: u128) -> (g: u128)
    ensures
        g == gcd(a as nat, b as nat),
{
    let mut x = a;
    let mut y = b;
    while y != 0
        invariant
            gcd(x as nat, y as nat) == gcd(a as nat, b as nat),
        decreases y,
    {
        let r = x % y;
        x = y;
        y = r;
    }
    x
}

/// Reduce `n / d` and store it when both parts fit in `i64`.
fn reduce_exec(n: i128, d: i128) -> (r: Option<RationalTime>)
    requires
        d > 0,
        n > i128::MIN,
    ensures
        match r {
            Some(t) => fits(reduce(n as int, d as int)) && t@ == reduce(n as int, d as int),
            None => !fits(reduce(n as int, d as int)),
        },
{
    proof {
        lemma_reduce_reduced(n as int, d as int);
    }
    let a: u128 = if n < 0 {
        (-n) as u128
    } else {
        n as u128
    };
    let g = gcd_u128(a, d as u128);
    assert(g as int == gcd(abs(n as int), d as nat));
    let a2 = a / g;
    let d2 = (d as u128) / g;
    let ghost spec_r = reduce(n as int, d as int);
    assert(d2 as int == spec_r.1);
    if d2 > 0x7fff_ffff_ffff_ffffu128 {
        return None;
    }
    if n < 0 {
        if a2 > 0x8000_0000_0000_0000u128 {
            return None;
        }
        let numer: i64 = if a2 == 0x8000_0000_0000_0000u128 {
            i64::MIN
        } else {
            -(a2 as i64)
        };
        proof {
            lemma_reduce_reduced(n as int, d as int);
        }
        let t = RationalTime { numer, denom: d2 as i64 };
        Some(t)
    } else {
        if a2 > 0x7fff_ffff_ffff_ffffu128 {
            return None;
        }
        let t = RationalTime { numer: a2 as i64, denom: d2 as i64 };
        Some(t)
    }
}

impl RationalTime {
    #[verifier::type_invariant]
    pub open spec fn wf(self) -> bool {
        reduced(self@)
    }

    /// The exact value `numer / denom`, stored in lowest terms.
    pub fn new(numer: i64, denom: i64) -> (r: Result<Self, TimeError>)
        ensures
            match r {
                Ok(t) => denom != 0 && fits(canonical(numer as int, denom as int)) && t@
                    == canonical(numer as int, denom as int),
                Err(TimeError::ZeroDenominator) => denom == 0,
                Err(TimeError::Overflow) => denom != 0 && !fits(
                    canonical(numer as int, denom as int),
                ),
            },
    {
        if denom == 0 {
            return Err(TimeError::ZeroDenominator);
        }
        let (n, d): (i128, i128) = if denom < 0 {
            (-(numer as i128), -(denom as i128))
        } else {
            (numer as i128, denom as i128)
        };
        match reduce_exec(n, d) {
            Some(t) => Ok(t),
            None => Err(TimeError::Overflow),
        }
    }

    /// Zero seconds.
    pub fn zero() -> (r: Self)
        ensures
            r@ == rat_zero(),
    {
        proof {
            assert(gcd(0, 1) == 1) by {
                assert(gcd(1, 0) == 1);
            }
        }
        RationalTime { numer: 0, denom: 1 }
    }

    /// The numerator of the reduced fraction.
    pub fn numer(&self) -> (r: i64)
        ensures
            r == self@.0,
    {
        self.numer
    }

    /// The (positive) denominator of the reduced fraction.
    pub fn denom(&self) -> (r: i64)
        ensures
            r == self@.1,
            r > 0,
    {
        proof {
            use_type_invariant(self);
        }
        self.denom
    }

    /// Exact sum; fails when the reduced result does not fit.
    pub fn add(self, other: Self) -> (r: Result<Self, TimeError>)
        ensures
            match r {
                Ok(t) => fits(rat_add(self@, other@)) && t@ == rat_add(self@, other@),
                Err(e) => e == TimeError::Overflow && !fits(rat_add(self@, other@)),
            },
    {
        proof {
            use_type_invariant(&self);
            use_type_invariant(&other);
        }
        let a = self.numer as i128;
        let b = self.denom as i128;
        let c = other.numer as i128;
        let d = other.denom as i128;
        proof {
            lemma_product_bounds(a as int, d as int);
            lemma_product_bounds(c as int, b as int);
            lemma_denominator_product_bounds(b as int, d as int);
        }
        let n = a * d + c * b;
        let den = b * d;
        match reduce_exec(n, den) {
            Some(t) => Ok(t),
            None => Err(TimeError::Overflow),
        }
    }

    /// Exact difference `self - other`; fails when the reduced result does not fit.
    pub fn sub(self, other: Self) -> (r: Result<Self, TimeError>)
        ensures
            match r {
                Ok(t) => fits(rat_sub(self@, other@)) && t@ == rat_sub(self@, other@),
                Err(e) => e == TimeError::Overflow && !fits(rat_sub(self@, other@)),
            },
    {
        proof {
            use_type_invariant(&self);
            use_type_invariant(&other);
        }
        let a = self.numer as i128;
        let b = self.denom as i128;
        let c = other.numer as i128;
        let d = other.denom as i128;
        proof {
            lemma_product_bounds(a as int, d as int);
            lemma_product_bounds(c as int, b as int);
            lemma_denominator_product_bounds(b as int, d as int);
        }
        let n = a * d - c * b;
        let den = b * d;
        match reduce_exec(n, den) {
            Some(t) => Ok(t),
            None => Err(TimeError::Overflow),
        }
    }

    /// Strict comparison of the two exact values.
    pub fn lt(&self, other: &Self) -> (r: bool)
        ensures
            r == rat_lt(self@, other@),
    {
        proof {
            use_type_invariant(self);
            use_type_invariant(other);
        }
        let a = self.numer as i128;
        let b = self.denom as i128;
        let c = other.numer as i128;
        let d = other.denom as i128;
        proof {
            lemma_product_bounds(a as int, d as int);
            lemma_product_bounds(c as int, b as int);
        }
        a * d < c * b
    }

    /// Values with equal fractions are the same value.
    pub proof fn lemma_view_injective(a: Self, b: Self)
        requires
            a@ == b@,
        ensures
            a == b,
    {
    }
}

proof fn lemma_product_bounds(a: int, d: int)
    requires
        i64::MIN <= a <= i64::MAX,
        0 < d <= i64::MAX,
    ensures
        -0x4000_0000_0000_0000_0000_0000_0000_0000 < a * d < 0x4000_0000_0000_0000_0000_0000_0000_0000,
{
    assert(-0x4000_0000_0000_0000_0000_0000_0000_0000 < a * d < 0x4000_0000_0000_0000_0000_0000_0000_0000)
        by (nonlinear_arith)
        requires
            -0x8000_0000_0000_0000 <= a <= 0x7fff_ffff_ffff_ffff,
            0 < d <= 0x7fff_ffff_ffff_ffff,
    {
        if a >= 0 {
            assert(a * d <= 0x7fff_ffff_ffff_ffff * 0x7fff_ffff_ffff_ffff);
        } else {
            assert(a * d >= -0x8000_0000_0000_0000 * 0x7fff_ffff_ffff_ffff);
        }
    }
}

proof fn lemma_denominator_product_bounds(b: int, d: int)
    requires
        0 < b <= i64::MAX,
        0 < d <= i64::MAX,
    ensures
        0 < b * d < 0x4000_0000_0000_0000_0000_0000_0000_0000,
{
    assert(0 < b * d < 0x4000_0000_0000_0000_0000_0000_0000_0000) by (nonlinear_arith)
        requires
            0 < b <= 0x7fff_ffff_ffff_ffff,
            0 < d <= 0x7fff_ffff_ffff_ffff,
    {
        assert(b * d <= 0x7fff_ffff_ffff_ffff * 0x7fff_ffff_ffff_ffff);
    }
}


/// Addition of exact times is commutative.
pub proof fn law_add_commutative(a: RationalTime, b: RationalTime)
    ensures
        rat_add(a@, b@) == rat_add(b@, a@),
{
    assert(a@.0 * b@.1 + b@.0 * a@.1 == b@.0 * a@.1 + a@.0 * b@.1);
    assert(a@.1 * b@.1 == b@.1 * a@.1) by (nonlinear_arith);
}

/// Adding a positive amount gives a strictly later time.
pub proof fn lemma_add_positive_is_later(a: (int, int), d: (int, int))
    requires
        a.1 > 0,
        d.1 > 0,
        d.0 > 0,
    ensures
        rat_lt(a, rat_add(a, d)),
{
    let n = a.0 * d.1 + d.0 * a.1;
    let den = a.1 * d.1;
    assert(den > 0) by (nonlinear_arith)
        requires
            den == a.1 * d.1,
            a.1 > 0,
            d.1 > 0,
    ;
    lemma_reduce_same_value(n, den);
    lemma_reduce_reduced(n, den);
    let s = reduce(n, den);
    assert(s.0 * den == n * s.1);
    assert(a.0 * s.1 < s.0 * a.1) by (nonlinear_arith)
        requires
            s.0 * den == n * s.1,
            n == a.0 * d.1 + d.0 * a.1,
            den == a.1 * d.1,
            a.1 > 0,
            d.1 > 0,
            d.0 > 0,
            s.1 > 0,
    {
        assert(s.0 * a.1 * d.1 == a.0 * d.1 * s.1 + d.0 * a.1 * s.1);
        assert(d.0 * a.1 * s.1 > 0);
        assert(a.0 * s.1 * d.1 < s.0 * a.1 * d.1);
    }
}

/// `a <= b < c` gives `a < c` (positive denominators).
pub proof fn lemma_le_lt_trans(a: (int, int), b: (int, int), c: (int, int))
    requires
        a.1 > 0,
        b.1 > 0,
        c.1 > 0,
        rat_le(a, b),
        rat_lt(b, c),
    ensures
        rat_lt(a, c),
{
    assert(a.0 * c.1 < c.0 * a.1) by (nonlinear_arith)
        requires
            a.1 > 0,
            b.1 > 0,
            c.1 > 0,
            a.0 * b.1 <= b.0 * a.1,
            b.0 * c.1 < c.0 * b.1,
    {
        assert(a.0 * b.1 * c.1 <= b.0 * a.1 * c.1);
        assert(b.0 * c.1 * a.1 < c.0 * b.1 * a.1);
        assert(a.0 * c.1 * b.1 < c.0 * a.1 * b.1);
    }
}

} // verus!
