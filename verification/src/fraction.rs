//! Exact non-negative rational numbers.
//!
//! A `Fraction` keeps a numerator `>= 0` and a denominator `> 0` in `i64`
//! fields.  Equality and ordering compare cross products, so they are defined
//! on the value of the fraction, not on its representation.  The arithmetic
//! operators return the reduced form of the exact result.

use vstd::prelude::*;

verus! {

use core::cmp::Ordering;
use vstd::std_specs::ops::AddSpec;
use vstd::std_specs::ops::SubSpec;
use vstd::std_specs::ops::MulSpec;
use vstd::std_specs::ops::DivSpec;

/// Greatest common divisor, following Euclid's recursion.
pub open spec fn gcd_spec(a: int, b: int) -> int
    decreases b,
{
    if b <= 0 {
        a
    } else {
        gcd_spec(b, a % b)
    }
}

/// `d` divides `x`.
pub open spec fn divides(d: int, x: int) -> bool {
    exists|k: int| x == #[trigger] (k * d)
}

/// The gcd of two non-negative numbers divides both of them, and is positive
/// as soon as the second one is.
pub proof fn lemma_gcd_divides(a: int, b: int)
    requires
        a >= 0,
        b >= 0,
    ensures
        divides(gcd_spec(a, b), a),
        divides(gcd_spec(a, b), b),
        b > 0 ==> gcd_spec(a, b) >= 1,
        b == 0 ==> gcd_spec(a, b) == a,
    decreases b,
{
    if b == 0 {
        assert(a == 1 * a);
        assert(b == 0 * a);
    } else {
        let r = a % b;
        vstd::arithmetic::div_mod::lemma_fundamental_div_mod(a, b);
        assert(0 <= r < b);
        lemma_gcd_divides(b, r);
        let g = gcd_spec(b, r);
        assert(gcd_spec(a, b) == g);
        let kb = choose|k: int| b == #[trigger] (k * g);
        let kr = choose|k: int| r == #[trigger] (k * g);
        assert(a == b * (a / b) + r);
        assert(a == (kb * (a / b) + kr) * g) by (nonlinear_arith)
            requires
                a == b * (a / b) + r,
                b == kb * g,
                r == kr * g,
        ;
        assert(divides(g, a));
        assert(g >= 1) by {
            if r == 0 {
                assert(g == b);
            }
        }
    }
}

/// Bezout's identity: some integer combination of `a` and `b` equals their gcd.
pub proof fn lemma_gcd_bezout(a: int, b: int)
    requires
        a >= 0,
        b >= 0,
    ensures
        exists|x: int, y: int| #[trigger] (x * a + y * b) == gcd_spec(a, b),
    decreases b,
{
    if b == 0 {
        assert(1 * a + 0 * b == gcd_spec(a, b));
    } else {
        let r = a % b;
        vstd::arithmetic::div_mod::lemma_fundamental_div_mod(a, b);
        lemma_gcd_bezout(b, r);
        let g = gcd_spec(b, r);
        let (x, y) = choose|x: int, y: int| #[trigger] (x * b + y * r) == g;
        let q = a / b;
        assert(y * a + (x - y * q) * b == g) by (nonlinear_arith)
            requires
                x * b + y * r == g,
                a == b * q + r,
        ;
        assert(gcd_spec(a, b) == g);
    }
}

/// A common divisor of `a` and `b` divides their gcd.
pub proof fn lemma_common_divisor_divides_gcd(a: int, b: int, c: int)
    requires
        a >= 0,
        b >= 0,
        divides(c, a),
        divides(c, b),
    ensures
        divides(c, gcd_spec(a, b)),
{
    lemma_gcd_bezout(a, b);
    let (x, y) = choose|x: int, y: int| #[trigger] (x * a + y * b) == gcd_spec(a, b);
    let ka = choose|k: int| a == #[trigger] (k * c);
    let kb = choose|k: int| b == #[trigger] (k * c);
    assert(gcd_spec(a, b) == (x * ka + y * kb) * c) by (nonlinear_arith)
        requires
            x * a + y * b == gcd_spec(a, b),
            a == ka * c,
            b == kb * c,
    ;
}

/// Compute the greatest common divisor of two non-negative numbers.
pub fn gcd(a: i64, b: i64) -> (g: i64)
    requires
        a >= 0,
        b >= 0,
    ensures
        g == gcd_spec(a as int, b as int),
    decreases b,
{
    if b == 0 {
        a
    } else {
        gcd(b, a % b)
    }
}

/// An exact non-negative rational number.
#[derive(Debug, Clone, Copy)]
pub struct Fraction {
    pub numerator: i64,
    pub denominator: i64,
}

/// The two fractions denote the same rational value.
pub open spec fn frac_eq(a: Fraction, b: Fraction) -> bool {
    a.numerator * b.denominator == b.numerator * a.denominator
}

/// The value of `a` is strictly below the value of `b`.
pub open spec fn frac_lt(a: Fraction, b: Fraction) -> bool {
    a.numerator * b.denominator < b.numerator * a.denominator
}

/// The value of `a` is at most the value of `b`.
pub open spec fn frac_le(a: Fraction, b: Fraction) -> bool {
    a.numerator * b.denominator <= b.numerator * a.denominator
}

impl Fraction {
    /// Numerator non-negative, denominator positive.
    pub open spec fn wf(self) -> bool {
        self.numerator >= 0 && self.denominator > 0
    }

    /// The fraction rounded down to an integer.
    pub open spec fn spec_floor(self) -> int {
        self.numerator as int / self.denominator as int
    }

    /// The reduced form: both fields divided by their gcd.
    pub open spec fn spec_reduce(self) -> Fraction {
        let g = gcd_spec(self.numerator as int, self.denominator as int);
        Fraction {
            numerator: (self.numerator as int / g) as i64,
            denominator: (self.denominator as int / g) as i64,
        }
    }

    /// Create a new fraction with the given numerator and denominator.
    pub fn new(numerator: i64, denominator: i64) -> (r: Fraction)
        requires
            numerator >= 0,
            denominator > 0,
        ensures
            r == (Fraction { numerator, denominator }),
    {
        Fraction { numerator, denominator }
    }

    /// Return the equal fraction whose numerator and denominator are coprime.
    pub fn reduce(&self) -> (r: Fraction)
        requires
            self.wf(),
        ensures
            r == self.spec_reduce(),
            r.wf(),
            frac_eq(r, *self),
            gcd_spec(r.numerator as int, r.denominator as int) == 1,
            r.numerator <= self.numerator,
            r.denominator <= self.denominator,
            divides(r.denominator as int, self.denominator as int),
            divides(r.numerator as int, self.numerator as int),
    {
        proof {
            lemma_reduce_properties(*self);
            lemma_gcd_divides(self.numerator as int, self.denominator as int);
        }
        let g = gcd(self.numerator, self.denominator);
        Fraction { numerator: self.numerator / g, denominator: self.denominator / g }
    }

    /// Return the fraction rounded down to the nearest integer.
    pub fn floor(&self) -> (r: Fraction)
        requires
            self.wf(),
        ensures
            r.numerator == self.spec_floor(),
            r.denominator == 1,
            r.wf(),
    {
        Fraction { numerator: self.numerator / self.denominator, denominator: 1 }
    }
}

/// Reduction by the gcd keeps the value, yields a coprime pair, and divides
/// both fields exactly.
pub proof fn lemma_reduce_properties(f: Fraction)
    requires
        f.wf(),
    ensures
        f.spec_reduce().wf(),
        frac_eq(f.spec_reduce(), f),
        gcd_spec(f.spec_reduce().numerator as int, f.spec_reduce().denominator as int) == 1,
        f.spec_reduce().numerator <= f.numerator,
        f.spec_reduce().denominator <= f.denominator,
        f.spec_reduce().numerator as int == f.numerator as int / gcd_spec(
            f.numerator as int,
            f.denominator as int,
        ),
        f.spec_reduce().denominator as int == f.denominator as int / gcd_spec(
            f.numerator as int,
            f.denominator as int,
        ),
        divides(f.spec_reduce().denominator as int, f.denominator as int),
        divides(f.spec_reduce().numerator as int, f.numerator as int),
{
    let n = f.numerator as int;
    let d = f.denominator as int;
    let g = gcd_spec(n, d);
    lemma_gcd_divides(n, d);
    let kn = choose|k: int| n == #[trigger] (k * g);
    let kd = choose|k: int| d == #[trigger] (k * g);
    assert(n / g == kn && d / g == kd) by (nonlinear_arith)
        requires
            n == kn * g,
            d == kd * g,
            g >= 1,
    ;
    assert(kd >= 1 && kn >= 0 && kn <= n && kd <= d) by (nonlinear_arith)
        requires
            n == kn * g,
            d == kd * g,
            g >= 1,
            n >= 0,
            d > 0,
    ;
    assert(kn * d == n * kd) by (nonlinear_arith)
        requires
            n == kn * g,
            d == kd * g,
    ;
    // the reduced pair is coprime
    let h = gcd_spec(kn, kd);
    lemma_gcd_divides(kn, kd);
    let jn = choose|k: int| kn == #[trigger] (k * h);
    let jd = choose|k: int| kd == #[trigger] (k * h);
    assert(divides(h * g, n) && divides(h * g, d)) by {
        assert(n == jn * (h * g) && d == jd * (h * g)) by (nonlinear_arith)
            requires
                n == kn * g,
                d == kd * g,
                kn == jn * h,
                kd == jd * h,
        ;
    }
    lemma_common_divisor_divides_gcd(n, d, h * g);
    let m = choose|k: int| g == #[trigger] (k * (h * g));
    assert(h == 1) by (nonlinear_arith)
        requires
            g == m * (h * g),
            g >= 1,
            h >= 1,
    ;
    assert(divides(kd, d)) by {
        assert(d == g * kd) by (nonlinear_arith)
            requires
                d == kd * g,
        ;
    }
    assert(divides(kn, n)) by {
        assert(n == g * kn) by (nonlinear_arith)
            requires
                n == kn * g,
        ;
    }
}

/// A coprime pair `p / q` that equals `m / b` has `q` dividing `b` and `p`
/// at most `m`: the canonical form of a rational divides every form of it.
pub proof fn lemma_reduced_divides(p: int, q: int, m: int, b: int)
    requires
        p >= 0,
        q > 0,
        b > 0,
        m >= 0,
        gcd_spec(p, q) == 1,
        p * b == m * q,
    ensures
        divides(q, b),
        p <= m,
        q <= b,
{
    lemma_gcd_bezout(p, q);
    let (x, y) = choose|x: int, y: int| #[trigger] (x * p + y * q) == gcd_spec(p, q);
    assert(b == (x * m + y * b) * q) by (nonlinear_arith)
        requires
            x * p + y * q == 1,
            p * b == m * q,
    ;
    assert(divides(q, b));
    let w = x * m + y * b;
    assert(w >= 1 && q <= b) by (nonlinear_arith)
        requires
            b == w * q,
            b > 0,
            q > 0,
    ;
    assert(p * w == m) by (nonlinear_arith)
        requires
            p * b == m * q,
            b == w * q,
            q > 0,
    ;
    assert(p <= m) by (nonlinear_arith)
        requires
            p * w == m,
            w >= 1,
            p >= 0,
    ;
}

/// The product of two values in `i64` range lies in `i128` range.
pub proof fn lemma_i64_product_fits(x: int, y: int)
    requires
        i64::MIN <= x <= i64::MAX,
        i64::MIN <= y <= i64::MAX,
    ensures
        i128::MIN <= x * y <= i128::MAX,
{
    assert(i128::MIN <= x * y <= i128::MAX) by (nonlinear_arith)
        requires
            -0x8000_0000_0000_0000 <= x <= 0x7fff_ffff_ffff_ffff,
            -0x8000_0000_0000_0000 <= y <= 0x7fff_ffff_ffff_ffff,
    ;
}

/// The exact (unreduced) sum of two fractions.
pub open spec fn sum_raw(a: Fraction, b: Fraction) -> Fraction {
    Fraction {
        numerator: (a.numerator * b.denominator + b.numerator * a.denominator) as i64,
        denominator: (a.denominator * b.denominator) as i64,
    }
}

/// The exact (unreduced) difference of two fractions.
pub open spec fn diff_raw(a: Fraction, b: Fraction) -> Fraction {
    Fraction {
        numerator: (a.numerator * b.denominator - b.numerator * a.denominator) as i64,
        denominator: (a.denominator * b.denominator) as i64,
    }
}

/// The exact (unreduced) product of two fractions.
pub open spec fn prod_raw(a: Fraction, b: Fraction) -> Fraction {
    Fraction {
        numerator: (a.numerator * b.numerator) as i64,
        denominator: (a.denominator * b.denominator) as i64,
    }
}

/// The exact (unreduced) quotient of two fractions.
pub open spec fn quot_raw(a: Fraction, b: Fraction) -> Fraction {
    Fraction {
        numerator: (a.numerator * b.denominator) as i64,
        denominator: (a.denominator * b.numerator) as i64,
    }
}

impl core::ops::Add for Fraction {
    type Output = Fraction;

    /// Exact sum, returned in reduced form.
    fn add(self, other: Fraction) -> (r: Fraction) {
        proof {
            assert(self.numerator * other.denominator >= 0 && other.numerator * self.denominator
                >= 0 && self.denominator * other.denominator >= 1) by (nonlinear_arith)
                requires
                    self.numerator >= 0,
                    self.denominator > 0,
                    other.numerator >= 0,
                    other.denominator > 0,
            ;
        }
        let n = self.numerator * other.denominator + other.numerator * self.denominator;
        let d = self.denominator * other.denominator;
        (Fraction { numerator: n, denominator: d }).reduce()
    }
}

impl vstd::std_specs::ops::AddSpecImpl for Fraction {
    open spec fn obeys_add_spec() -> bool {
        true
    }

    open spec fn add_req(self, rhs: Fraction) -> bool {
        &&& self.wf()
        &&& rhs.wf()
        &&& self.numerator * rhs.denominator + rhs.numerator * self.denominator <= i64::MAX
        &&& self.denominator * rhs.denominator <= i64::MAX
    }

    open spec fn add_spec(self, rhs: Fraction) -> Fraction {
        sum_raw(self, rhs).spec_reduce()
    }
}

impl core::ops::Sub for Fraction {
    type Output = Fraction;

    /// Exact difference, returned in reduced form; the result stays
    /// non-negative because subtraction demands `other <= self`.
    fn sub(self, other: Fraction) -> (r: Fraction) {
        proof {
            assert(other.numerator * self.denominator >= 0 && self.denominator
                * other.denominator >= 1) by (nonlinear_arith)
                requires
                    self.denominator > 0,
                    other.numerator >= 0,
                    other.denominator > 0,
            ;
        }
        let n = self.numerator * other.denominator - other.numerator * self.denominator;
        let d = self.denominator * other.denominator;
        (Fraction { numerator: n, denominator: d }).reduce()
    }
}

impl vstd::std_specs::ops::SubSpecImpl for Fraction {
    open spec fn obeys_sub_spec() -> bool {
        true
    }

    open spec fn sub_req(self, rhs: Fraction) -> bool {
        &&& self.wf()
        &&& rhs.wf()
        &&& frac_le(rhs, self)
        &&& self.numerator * rhs.denominator <= i64::MAX
        &&& self.denominator * rhs.denominator <= i64::MAX
    }

    open spec fn sub_spec(self, rhs: Fraction) -> Fraction {
        diff_raw(self, rhs).spec_reduce()
    }
}

impl core::ops::Mul for Fraction {
    type Output = Fraction;

    /// Exact product, returned in reduced form.
    fn mul(self, other: Fraction) -> (r: Fraction) {
        proof {
            assert(self.numerator * other.numerator >= 0 && self.denominator * other.denominator
                >= 1) by (nonlinear_arith)
                requires
                    self.numerator >= 0,
                    self.denominator > 0,
                    other.numerator >= 0,
                    other.denominator > 0,
            ;
        }
        let n = self.numerator * other.numerator;
        let d = self.denominator * other.denominator;
        (Fraction { numerator: n, denominator: d }).reduce()
    }
}

impl vstd::std_specs::ops::MulSpecImpl for Fraction {
    open spec fn obeys_mul_spec() -> bool {
        true
    }

    open spec fn mul_req(self, rhs: Fraction) -> bool {
        &&& self.wf()
        &&& rhs.wf()
        &&& self.numerator * rhs.numerator <= i64::MAX
        &&& self.denominator * rhs.denominator <= i64::MAX
    }

    open spec fn mul_spec(self, rhs: Fraction) -> Fraction {
        prod_raw(self, rhs).spec_reduce()
    }
}

impl core::ops::Div for Fraction {
    type Output = Fraction;

    /// Exact quotient, returned in reduced form; the divisor must be positive.
    fn div(self, other: Fraction) -> (r: Fraction) {
        proof {
            assert(self.numerator * other.denominator >= 0 && self.denominator * other.numerator
                >= 1) by (nonlinear_arith)
                requires
                    self.numerator >= 0,
                    self.denominator > 0,
                    other.numerator > 0,
                    other.denominator > 0,
            ;
        }
        let n = self.numerator * other.denominator;
        let d = self.denominator * other.numerator;
        (Fraction { numerator: n, denominator: d }).reduce()
    }
}

impl vstd::std_specs::ops::DivSpecImpl for Fraction {
    open spec fn obeys_div_spec() -> bool {
        true
    }

    open spec fn div_req(self, rhs: Fraction) -> bool {
        &&& self.wf()
        &&& rhs.wf()
        &&& rhs.numerator > 0
        &&& self.numerator * rhs.denominator <= i64::MAX
        &&& self.denominator * rhs.numerator <= i64::MAX
    }

    open spec fn div_spec(self, rhs: Fraction) -> Fraction {
        quot_raw(self, rhs).spec_reduce()
    }
}

impl PartialEq for Fraction {
    /// Value equality: cross products agree.
    fn eq(&self, other: &Fraction) -> (r: bool) {
        proof {
            lemma_i64_product_fits(self.numerator as int, other.denominator as int);
            lemma_i64_product_fits(other.numerator as int, self.denominator as int);
        }
        (self.numerator as i128) * (other.denominator as i128) == (other.numerator as i128) * (
        self.denominator as i128)
    }
}

impl Eq for Fraction {

}

impl vstd::std_specs::cmp::PartialEqSpecImpl for Fraction {
    open spec fn obeys_eq_spec() -> bool {
        true
    }

    open spec fn eq_spec(&self, other: &Fraction) -> bool {
        frac_eq(*self, *other)
    }
}

impl PartialOrd for Fraction {
    /// Value ordering: cross products are compared.
    fn partial_cmp(&self, other: &Fraction) -> (r: Option<Ordering>) {
        proof {
            lemma_i64_product_fits(self.numerator as int, other.denominator as int);
            lemma_i64_product_fits(other.numerator as int, self.denominator as int);
        }
        let left = (self.numerator as i128) * (other.denominator as i128);
        let right = (other.numerator as i128) * (self.denominator as i128);
        if left == right {
            Some(Ordering::Equal)
        } else if left < right {
            Some(Ordering::Less)
        } else {
            Some(Ordering::Greater)
        }
    }
}

impl vstd::std_specs::cmp::PartialOrdSpecImpl for Fraction {
    open spec fn obeys_partial_cmp_spec() -> bool {
        true
    }

    open spec fn partial_cmp_spec(&self, other: &Fraction) -> Option<Ordering> {
        if frac_eq(*self, *other) {
            Some(Ordering::Equal)
        } else if frac_lt(*self, *other) {
            Some(Ordering::Less)
        } else {
            Some(Ordering::Greater)
        }
    }
}

/// `f` denotes the rational value `n / d`.
pub open spec fn represents(f: Fraction, n: int, d: int) -> bool {
    d > 0 && f.denominator > 0 && f.numerator * d == n * f.denominator
}


/// Regrouping of a product of four factors.
pub proof fn lemma_four_swap(p: int, q: int, r: int, s: int)
    ensures
        (p * q) * (r * s) == (p * r) * (q * s),
        (p * q) * (r * s) == (p * s) * (q * r),
{
    assert((p * q) * (r * s) == (p * r) * (q * s)) by (nonlinear_arith);
    assert((p * q) * (r * s) == (p * s) * (q * r)) by (nonlinear_arith);
}

/// Multiplying both sides of an equation keeps it an equation.
pub proof fn lemma_mul_both(x: int, y: int, c: int)
    requires
        x == y,
    ensures
        x * c == y * c,
{
}

/// Multiplication distributes over addition and subtraction.
pub proof fn lemma_distribute(x: int, y: int, c: int)
    ensures
        (x + y) * c == x * c + y * c,
        (x - y) * c == x * c - y * c,
{
    assert((x + y) * c == x * c + y * c) by (nonlinear_arith);
    assert((x - y) * c == x * c - y * c) by (nonlinear_arith);
}

/// Commutativity of multiplication, as a lemma.
pub proof fn lemma_mul_comm(p: int, q: int)
    ensures
        p * q == q * p,
{
    assert(p * q == q * p) by (nonlinear_arith);
}

/// Cross-multiplied form of the sum of two represented values.
pub proof fn lemma_cross_sum(an: int, ad: int, bn: int, bd: int, na: int, da: int, nb: int, db: int)
    requires
        an * da == na * ad,
        bn * db == nb * bd,
    ensures
        (an * bd + bn * ad) * (da * db) == (na * db + nb * da) * (ad * bd),
{
    lemma_distribute(an * bd, bn * ad, da * db);
    lemma_four_swap(an, bd, da, db);
    lemma_mul_both(an * da, na * ad, bd * db);
    lemma_four_swap(na, ad, bd, db);
    lemma_four_swap(bn, ad, da, db);
    lemma_mul_both(bn * db, nb * bd, ad * da);
    lemma_four_swap(nb, bd, ad, da);
    lemma_mul_comm(bd, ad);
    lemma_distribute(na * db, nb * da, ad * bd);
}

/// Cross-multiplied form of the difference of two represented values.
pub proof fn lemma_cross_diff(
    an: int,
    ad: int,
    bn: int,
    bd: int,
    na: int,
    da: int,
    nb: int,
    db: int,
)
    requires
        an * da == na * ad,
        bn * db == nb * bd,
    ensures
        (an * bd - bn * ad) * (da * db) == (na * db - nb * da) * (ad * bd),
{
    lemma_distribute(an * bd, bn * ad, da * db);
    lemma_four_swap(an, bd, da, db);
    lemma_mul_both(an * da, na * ad, bd * db);
    lemma_four_swap(na, ad, bd, db);
    lemma_four_swap(bn, ad, da, db);
    lemma_mul_both(bn * db, nb * bd, ad * da);
    lemma_four_swap(nb, bd, ad, da);
    lemma_mul_comm(bd, ad);
    lemma_distribute(na * db, nb * da, ad * bd);
}

/// Cross-multiplied form of the product of two represented values.
pub proof fn lemma_cross_prod(
    an: int,
    ad: int,
    bn: int,
    bd: int,
    na: int,
    da: int,
    nb: int,
    db: int,
)
    requires
        an * da == na * ad,
        bn * db == nb * bd,
    ensures
        (an * bn) * (da * db) == (na * nb) * (ad * bd),
{
    lemma_four_swap(an, bn, da, db);
    lemma_mul_both(an * da, na * ad, bn * db);
    lemma_mul_comm(na * ad, bn * db);
    lemma_mul_both(bn * db, nb * bd, na * ad);
    lemma_mul_comm(nb * bd, na * ad);
    lemma_four_swap(na, ad, nb, bd);
    lemma_mul_comm(na, nb);
    lemma_mul_comm(ad, bd);
    lemma_mul_comm(nb, na);
    lemma_mul_comm(bd, ad);
    assert((na * ad) * (nb * bd) == (na * nb) * (ad * bd));
}

/// Cross-multiplied form of the quotient of two represented values.
pub proof fn lemma_cross_quot(
    an: int,
    ad: int,
    bn: int,
    bd: int,
    na: int,
    da: int,
    nb: int,
    db: int,
)
    requires
        an * da == na * ad,
        bn * db == nb * bd,
    ensures
        (an * bd) * (da * nb) == (na * db) * (ad * bn),
{
    lemma_four_swap(an, bd, da, nb);
    lemma_mul_both(an * da, na * ad, bd * nb);
    lemma_mul_comm(bd, nb);
    lemma_mul_both(nb * bd, bn * db, na * ad);
    lemma_mul_comm(nb * bd, na * ad);
    lemma_mul_comm(bn * db, na * ad);
    lemma_four_swap(na, ad, bn, db);
}

/// Multiplication by a positive factor can be cancelled.
pub proof fn lemma_mul_cancel(x: int, y: int, c: int)
    requires
        x * c == y * c,
        c > 0,
    ensures
        x == y,
{
    assert(x == y) by (nonlinear_arith)
        requires
            x * c == y * c,
            c > 0,
    ;
}

/// A fraction equal in value to `rn / rd` is also equal in value to any other
/// form `nv / dv` of the same rational.
pub proof fn lemma_represents_other_form(s: Fraction, rn: int, rd: int, nv: int, dv: int)
    requires
        s.denominator > 0,
        rd > 0,
        dv > 0,
        s.numerator * rd == rn * s.denominator,
        rn * dv == nv * rd,
    ensures
        represents(s, nv, dv),
{
    assert((s.numerator * dv) * rd == (nv * s.denominator) * rd) by (nonlinear_arith)
        requires
            s.numerator * rd == rn * s.denominator,
            rn * dv == nv * rd,
    ;
    lemma_mul_cancel(s.numerator * dv, nv * s.denominator, rd);
}

/// Two fractions that denote the same value are equal under `frac_eq`.
pub proof fn lemma_represents_to_eq(f: Fraction, g: Fraction, n: int, d: int)
    requires
        represents(f, n, d),
        represents(g, n, d),
    ensures
        frac_eq(f, g),
{
    assert(frac_eq(f, g)) by (nonlinear_arith)
        requires
            f.numerator * d == n * f.denominator,
            g.numerator * d == n * g.denominator,
            d > 0,
            f.denominator > 0,
            g.denominator > 0,
    ;
}

/// The reduced sum denotes the exact rational sum.
pub proof fn lemma_sum_value(a: Fraction, b: Fraction, na: int, da: int, nb: int, db: int)
    requires
        a.add_req(b),
        represents(a, na, da),
        represents(b, nb, db),
    ensures
        a.add_spec(b).wf(),
        represents(a.add_spec(b), na * db + nb * da, da * db),
{
    let raw = sum_raw(a, b);
    assert(raw.numerator == a.numerator * b.denominator + b.numerator * a.denominator
        && raw.denominator == a.denominator * b.denominator && raw.wf()) by (nonlinear_arith)
        requires
            a.wf(),
            b.wf(),
            a.numerator * b.denominator + b.numerator * a.denominator <= i64::MAX,
            a.denominator * b.denominator <= i64::MAX,
            raw == sum_raw(a, b),
    ;
    lemma_reduce_properties(raw);
    let s = a.add_spec(b);
    lemma_cross_sum(
        a.numerator as int,
        a.denominator as int,
        b.numerator as int,
        b.denominator as int,
        na,
        da,
        nb,
        db,
    );
    assert(raw.denominator > 0 && da * db > 0) by (nonlinear_arith)
        requires
            a.denominator > 0,
            b.denominator > 0,
            da > 0,
            db > 0,
            raw.denominator == a.denominator * b.denominator,
    ;
    lemma_represents_other_form(
        s,
        a.numerator * b.denominator + b.numerator * a.denominator,
        a.denominator * b.denominator,
        na * db + nb * da,
        da * db,
    );
}

/// The reduced difference denotes the exact rational difference.
pub proof fn lemma_diff_value(a: Fraction, b: Fraction, na: int, da: int, nb: int, db: int)
    requires
        a.sub_req(b),
        represents(a, na, da),
        represents(b, nb, db),
    ensures
        a.sub_spec(b).wf(),
        represents(a.sub_spec(b), na * db - nb * da, da * db),
{
    let raw = diff_raw(a, b);
    assert(raw.numerator == a.numerator * b.denominator - b.numerator * a.denominator
        && raw.denominator == a.denominator * b.denominator && raw.wf()) by (nonlinear_arith)
        requires
            a.wf(),
            b.wf(),
            frac_le(b, a),
            a.numerator * b.denominator <= i64::MAX,
            a.denominator * b.denominator <= i64::MAX,
            raw == diff_raw(a, b),
    ;
    lemma_reduce_properties(raw);
    let s = a.sub_spec(b);
    lemma_cross_diff(
        a.numerator as int,
        a.denominator as int,
        b.numerator as int,
        b.denominator as int,
        na,
        da,
        nb,
        db,
    );
    assert(raw.denominator > 0 && da * db > 0) by (nonlinear_arith)
        requires
            a.denominator > 0,
            b.denominator > 0,
            da > 0,
            db > 0,
            raw.denominator == a.denominator * b.denominator,
    ;
    lemma_represents_other_form(
        s,
        a.numerator * b.denominator - b.numerator * a.denominator,
        a.denominator * b.denominator,
        na * db - nb * da,
        da * db,
    );
}

/// The reduced product denotes the exact rational product.
pub proof fn lemma_prod_value(a: Fraction, b: Fraction, na: int, da: int, nb: int, db: int)
    requires
        a.mul_req(b),
        represents(a, na, da),
        represents(b, nb, db),
    ensures
        a.mul_spec(b).wf(),
        represents(a.mul_spec(b), na * nb, da * db),
{
    let raw = prod_raw(a, b);
    assert(raw.numerator == a.numerator * b.numerator && raw.denominator == a.denominator
        * b.denominator && raw.wf()) by (nonlinear_arith)
        requires
            a.wf(),
            b.wf(),
            a.numerator * b.numerator <= i64::MAX,
            a.denominator * b.denominator <= i64::MAX,
            raw == prod_raw(a, b),
    ;
    lemma_reduce_properties(raw);
    let s = a.mul_spec(b);
    lemma_cross_prod(
        a.numerator as int,
        a.denominator as int,
        b.numerator as int,
        b.denominator as int,
        na,
        da,
        nb,
        db,
    );
    assert(raw.denominator > 0 && da * db > 0) by (nonlinear_arith)
        requires
            a.denominator > 0,
            b.denominator > 0,
            da > 0,
            db > 0,
            raw.denominator == a.denominator * b.denominator,
    ;
    lemma_represents_other_form(
        s,
        a.numerator * b.numerator,
        a.denominator * b.denominator,
        na * nb,
        da * db,
    );
}

/// The reduced quotient denotes the exact rational quotient.
pub proof fn lemma_quot_value(a: Fraction, b: Fraction, na: int, da: int, nb: int, db: int)
    requires
        a.div_req(b),
        represents(a, na, da),
        represents(b, nb, db),
        nb > 0,
    ensures
        a.div_spec(b).wf(),
        represents(a.div_spec(b), na * db, da * nb),
{
    let raw = quot_raw(a, b);
    assert(raw.numerator == a.numerator * b.denominator && raw.denominator == a.denominator
        * b.numerator && raw.wf()) by (nonlinear_arith)
        requires
            a.wf(),
            b.wf(),
            b.numerator > 0,
            a.numerator * b.denominator <= i64::MAX,
            a.denominator * b.numerator <= i64::MAX,
            raw == quot_raw(a, b),
    ;
    lemma_reduce_properties(raw);
    let s = a.div_spec(b);
    lemma_cross_quot(
        a.numerator as int,
        a.denominator as int,
        b.numerator as int,
        b.denominator as int,
        na,
        da,
        nb,
        db,
    );
    assert(raw.denominator > 0 && da * nb > 0) by (nonlinear_arith)
        requires
            a.denominator > 0,
            b.numerator > 0,
            da > 0,
            nb > 0,
            raw.denominator == a.denominator * b.numerator,
    ;
    lemma_represents_other_form(
        s,
        a.numerator * b.denominator,
        a.denominator * b.numerator,
        na * db,
        da * nb,
    );
}

/// Addition is commutative: both orders give the identical reduced result.
pub proof fn lemma_sum_comm(a: Fraction, b: Fraction)
    requires
        a.add_req(b),
    ensures
        b.add_req(a),
        a.add_spec(b) == b.add_spec(a),
{
    assert(sum_raw(a, b) == sum_raw(b, a)) by (nonlinear_arith)
        requires
            true,
    ;
}

/// Multiplication is commutative: both orders give the identical reduced result.
pub proof fn lemma_prod_comm(a: Fraction, b: Fraction)
    requires
        a.mul_req(b),
    ensures
        b.mul_req(a),
        a.mul_spec(b) == b.mul_spec(a),
{
    assert(prod_raw(a, b) == prod_raw(b, a)) by (nonlinear_arith)
        requires
            true,
    ;
}

/// Addition is associative up to reduction.
pub proof fn lemma_sum_assoc(a: Fraction, b: Fraction, c: Fraction)
    requires
        a.add_req(b),
        a.add_spec(b).add_req(c),
        b.add_req(c),
        a.add_req(b.add_spec(c)),
    ensures
        frac_eq(a.add_spec(b).add_spec(c), a.add_spec(b.add_spec(c))),
{
    let na = a.numerator as int;
    let da = a.denominator as int;
    let nb = b.numerator as int;
    let db = b.denominator as int;
    let nc = c.numerator as int;
    let dc = c.denominator as int;
    lemma_sum_value(a, b, na, da, nb, db);
    lemma_sum_value(a.add_spec(b), c, na * db + nb * da, da * db, nc, dc);
    lemma_sum_value(b, c, nb, db, nc, dc);
    lemma_sum_value(a, b.add_spec(c), na, da, nb * dc + nc * db, db * dc);
    assert((na * db + nb * da) * dc + nc * (da * db) == na * (db * dc) + (nb * dc + nc * db) * da)
        by (nonlinear_arith);
    assert((da * db) * dc == da * (db * dc)) by (nonlinear_arith);
    lemma_represents_to_eq(
        a.add_spec(b).add_spec(c),
        a.add_spec(b.add_spec(c)),
        na * (db * dc) + (nb * dc + nc * db) * da,
        da * (db * dc),
    );
}

/// Multiplication is associative up to reduction.
pub proof fn lemma_prod_assoc(a: Fraction, b: Fraction, c: Fraction)
    requires
        a.mul_req(b),
        a.mul_spec(b).mul_req(c),
        b.mul_req(c),
        a.mul_req(b.mul_spec(c)),
    ensures
        frac_eq(a.mul_spec(b).mul_spec(c), a.mul_spec(b.mul_spec(c))),
{
    let na = a.numerator as int;
    let da = a.denominator as int;
    let nb = b.numerator as int;
    let db = b.denominator as int;
    let nc = c.numerator as int;
    let dc = c.denominator as int;
    lemma_prod_value(a, b, na, da, nb, db);
    lemma_prod_value(a.mul_spec(b), c, na * nb, da * db, nc, dc);
    lemma_prod_value(b, c, nb, db, nc, dc);
    lemma_prod_value(a, b.mul_spec(c), na, da, nb * nc, db * dc);
    assert((na * nb) * nc == na * (nb * nc) && (da * db) * dc == da * (db * dc))
        by (nonlinear_arith)
        requires
            true,
    ;
    lemma_represents_to_eq(
        a.mul_spec(b).mul_spec(c),
        a.mul_spec(b.mul_spec(c)),
        na * (nb * nc),
        da * (db * dc),
    );
}

/// Adding and then subtracting the same fraction gives back the first
/// operand, up to reduction.
pub proof fn lemma_sum_diff_cancel(a: Fraction, b: Fraction)
    requires
        a.add_req(b),
        a.add_spec(b).sub_req(b),
    ensures
        frac_eq(a.add_spec(b).sub_spec(b), a),
{
    let na = a.numerator as int;
    let da = a.denominator as int;
    let nb = b.numerator as int;
    let db = b.denominator as int;
    lemma_sum_value(a, b, na, da, nb, db);
    lemma_diff_value(a.add_spec(b), b, na * db + nb * da, da * db, nb, db);
    let s = a.add_spec(b).sub_spec(b);
    assert((na * db + nb * da) * db - nb * (da * db) == (na * db) * db && (da * db) * db == (da
        * db) * db) by (nonlinear_arith)
        requires
            true,
    ;
    assert(represents(a, na * db, da * db)) by (nonlinear_arith)
        requires
            a.denominator > 0,
            da > 0,
            db > 0,
            na == a.numerator as int,
            da == a.denominator as int,
    ;
    assert(represents(s, (na * db) * db, (da * db) * db) ==> represents(s, na * db, da * db))
        by (nonlinear_arith)
        requires
            da > 0,
            db > 0,
    ;
    lemma_represents_to_eq(s, a, na * db, da * db);
}

/// Multiplying and then dividing by the same positive fraction gives back
/// the first operand, up to reduction.
pub proof fn lemma_prod_quot_cancel(a: Fraction, b: Fraction)
    requires
        a.mul_req(b),
        a.mul_spec(b).div_req(b),
    ensures
        frac_eq(a.mul_spec(b).div_spec(b), a),
{
    let na = a.numerator as int;
    let da = a.denominator as int;
    let nb = b.numerator as int;
    let db = b.denominator as int;
    lemma_prod_value(a, b, na, da, nb, db);
    lemma_quot_value(a.mul_spec(b), b, na * nb, da * db, nb, db);
    let s = a.mul_spec(b).div_spec(b);
    assert((na * nb) * db == na * (nb * db) && (da * db) * nb == da * (nb * db) && nb * db > 0)
        by (nonlinear_arith)
        requires
            nb > 0,
            db > 0,
    ;
    assert(represents(a, na * (nb * db), da * (nb * db))) by (nonlinear_arith)
        requires
            a.denominator > 0,
            da > 0,
            nb * db > 0,
            na == a.numerator as int,
            da == a.denominator as int,
    ;
    lemma_represents_to_eq(s, a, na * (nb * db), da * (nb * db));
}

/// The value ordering is total: trichotomy between `frac_lt`, `frac_eq` and
/// the reversed `frac_lt`, and it is transitive on well-formed fractions.
pub proof fn lemma_order_total(a: Fraction, b: Fraction)
    requires
        a.wf(),
        b.wf(),
    ensures
        frac_lt(a, b) || frac_eq(a, b) || frac_lt(b, a),
        frac_lt(a, b) ==> !frac_eq(a, b) && !frac_lt(b, a),
        frac_eq(a, b) ==> !frac_lt(a, b) && !frac_lt(b, a),
        frac_le(a, b) <==> frac_lt(a, b) || frac_eq(a, b),
        frac_le(a, b) || frac_le(b, a),
{
}

/// The value ordering is transitive.
pub proof fn lemma_order_trans(a: Fraction, b: Fraction, c: Fraction)
    requires
        a.wf(),
        b.wf(),
        c.wf(),
        frac_le(a, b),
        frac_le(b, c),
    ensures
        frac_le(a, c),
        frac_lt(a, b) || frac_lt(b, c) ==> frac_lt(a, c),
{
    assert(frac_le(a, c) && (frac_lt(a, b) || frac_lt(b, c) ==> frac_lt(a, c)))
        by (nonlinear_arith)
        requires
            a.denominator > 0,
            b.denominator > 0,
            c.denominator > 0,
            a.numerator * b.denominator <= b.numerator * a.denominator,
            b.numerator * c.denominator <= c.numerator * b.denominator,
            frac_lt(a, b) ==> a.numerator * b.denominator < b.numerator * a.denominator,
            frac_lt(b, c) ==> b.numerator * c.denominator < c.numerator * b.denominator,
            frac_le(a, c) <==> a.numerator * c.denominator <= c.numerator * a.denominator,
            frac_lt(a, c) <==> a.numerator * c.denominator < c.numerator * a.denominator,
    ;
}

/// Reduction keeps the equivalence class: comparisons of the reduced forms
/// agree with comparisons of the original fractions.
pub proof fn lemma_order_consistent_with_reduce(a: Fraction, b: Fraction)
    requires
        a.wf(),
        b.wf(),
    ensures
        frac_eq(a.spec_reduce(), a),
        frac_eq(b.spec_reduce(), b),
        frac_eq(a.spec_reduce(), b.spec_reduce()) <==> frac_eq(a, b),
        frac_lt(a.spec_reduce(), b.spec_reduce()) <==> frac_lt(a, b),
        frac_le(a.spec_reduce(), b.spec_reduce()) <==> frac_le(a, b),
{
    lemma_reduce_properties(a);
    lemma_reduce_properties(b);
    let ra = a.spec_reduce();
    let rb = b.spec_reduce();
    assert((frac_eq(ra, rb) <==> frac_eq(a, b)) && (frac_lt(ra, rb) <==> frac_lt(a, b)) && (
    frac_le(ra, rb) <==> frac_le(a, b))) by (nonlinear_arith)
        requires
            a.denominator > 0,
            b.denominator > 0,
            ra.denominator > 0,
            rb.denominator > 0,
            ra.numerator * a.denominator == a.numerator * ra.denominator,
            rb.numerator * b.denominator == b.numerator * rb.denominator,
            frac_eq(ra, rb) <==> ra.numerator * rb.denominator == rb.numerator * ra.denominator,
            frac_eq(a, b) <==> a.numerator * b.denominator == b.numerator * a.denominator,
            frac_lt(ra, rb) <==> ra.numerator * rb.denominator < rb.numerator * ra.denominator,
            frac_lt(a, b) <==> a.numerator * b.denominator < b.numerator * a.denominator,
            frac_le(ra, rb) <==> ra.numerator * rb.denominator <= rb.numerator * ra.denominator,
            frac_le(a, b) <==> a.numerator * b.denominator <= b.numerator * a.denominator,
    ;
}

} // verus!
