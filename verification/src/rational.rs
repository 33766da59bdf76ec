use vstd::prelude::*;

use num::rational::Ratio;
use num::{CheckedAdd, CheckedDiv, CheckedMul, CheckedSub};

use crate::text::decimal;
use vstd::arithmetic::div_mod::{
    lemma_div_multiples_vanish, lemma_fundamental_div_mod, lemma_mod_multiples_basic, lemma_truncate_middle,
};

verus! {

/// A fraction of two 64-bit integers, as `num::rational::Ratio<i64>` computes it.
/// Its view is the pair (numerator, denominator); every value this library
/// hands out is in lowest terms with a positive denominator.
#[derive(Clone, Copy, PartialEq, Eq, Hash, Debug, Structural)]
pub struct Rational {
    numer: i64,
    denom: i64,
}

impl View for Rational {
    type V = (i64, i64);

    closed spec fn view(&self) -> (i64, i64) {
        (self.numer, self.denom)
    }
}

/// What `CheckedAdd::checked_add` on two `Ratio<i64>` returns.
pub uninterp spec fn ratio_checked_add(a: (i64, i64), b: (i64, i64)) -> Option<(i64, i64)>;

/// What `CheckedSub::checked_sub` on two `Ratio<i64>` returns.
pub uninterp spec fn ratio_checked_sub(a: (i64, i64), b: (i64, i64)) -> Option<(i64, i64)>;

/// What `CheckedMul::checked_mul` on two `Ratio<i64>` returns.
pub uninterp spec fn ratio_checked_mul(a: (i64, i64), b: (i64, i64)) -> Option<(i64, i64)>;

/// What `CheckedDiv::checked_div` on two `Ratio<i64>` returns.
pub uninterp spec fn ratio_checked_div(a: (i64, i64), b: (i64, i64)) -> Option<(i64, i64)>;

/// The inputs on which `checked_div` panics (in a build with overflow checks):
/// it takes the gcd of the two numerators, and `gcd(0, i64::MIN)` overflows
/// when it negates `i64::MIN`. Equal denominators avoid that gcd.
pub open spec fn div_panics(a: (i64, i64), b: (i64, i64)) -> bool {
    a.0 == 0 && b.0 == i64::MIN && a.1 != b.1
}

/// A fraction's two parts as mathematical integers.
pub open spec fn pair_of(p: (i64, i64)) -> (int, int) {
    (p.0 as int, p.1 as int)
}

/// `a + b`, over the common denominator `a.1 * b.1`.
pub open spec fn sum_of(a: (i64, i64), b: (i64, i64)) -> (int, int) {
    (a.0 * b.1 + b.0 * a.1, a.1 * b.1)
}

/// `a - b`, over the common denominator `a.1 * b.1`.
pub open spec fn difference_of(a: (i64, i64), b: (i64, i64)) -> (int, int) {
    (a.0 * b.1 - b.0 * a.1, a.1 * b.1)
}

/// `a * b`, numerators times numerators over denominators times denominators.
pub open spec fn product_of(a: (i64, i64), b: (i64, i64)) -> (int, int) {
    (a.0 * b.0, a.1 * b.1)
}

/// `a / b`, as `a` times the reciprocal of `b`.
pub open spec fn quotient_of(a: (i64, i64), b: (i64, i64)) -> (int, int) {
    (a.0 * b.1, a.1 * b.0)
}

/// Whether two fractions (with nonzero denominators) are the same number.
pub open spec fn same_value(p: (int, int), q: (int, int)) -> bool {
    p.0 * q.1 == q.0 * p.1
}

/// The absolute value.
pub open spec fn abs(x: int) -> nat {
    if x < 0 {
        (-x) as nat
    } else {
        x as nat
    }
}

/// The greatest common divisor, by Euclid's algorithm.
pub open spec fn gcd(a: nat, b: nat) -> nat
    decreases b,
{
    if b == 0 {
        a
    } else {
        gcd(b, a % b)
    }
}

/// The fraction `p` (with a nonzero denominator) in lowest terms, with a
/// positive denominator: both parts divided by their greatest common divisor,
/// and the signs turned when the denominator is negative.
pub open spec fn lowest_terms(p: (int, int)) -> (int, int) {
    let g = gcd(abs(p.0), abs(p.1)) as int;
    if p.1 < 0 {
        ((-p.0) / g, (-p.1) / g)
    } else {
        (p.0 / g, p.1 / g)
    }
}

/// The greatest common divisor divides both numbers, and it is positive
/// unless both are zero.
pub proof fn lemma_gcd_divides(a: nat, b: nat)
    ensures
        a > 0 || b > 0 ==> gcd(a, b) > 0,
        gcd(a, b) > 0 ==> a % gcd(a, b) == 0 && b % gcd(a, b) == 0,
    decreases b,
{
    if b == 0 {
        if a > 0 {
            lemma_mod_multiples_basic(1, a as int);
            lemma_mod_multiples_basic(0, a as int);
        }
    } else {
        let r = a % b;
        lemma_gcd_divides(b, r);
        let g = gcd(b, r) as int;
        assert(g > 0);
        lemma_fundamental_div_mod(b as int, g);
        lemma_fundamental_div_mod(r as int, g);
        lemma_fundamental_div_mod(a as int, b as int);
        let k1 = b as int / g;
        let k2 = r as int / g;
        let q = a as int / b as int;
        assert(a as int == (k1 * q + k2) * g) by (nonlinear_arith)
            requires
                b as int == g * k1,
                r as int == g * k2,
                a as int == b as int * q + r as int,
        ;
        lemma_mod_multiples_basic(k1 * q + k2, g);
    }
}

/// Scaling both numbers scales their greatest common divisor.
pub proof fn lemma_gcd_scaled(k: nat, x: nat, y: nat)
    requires
        k > 0,
    ensures
        gcd(k * x, k * y) == k * gcd(x, y),
    decreases y,
{
    if y > 0 {
        assert(k * y > 0) by (nonlinear_arith)
            requires
                k > 0,
                y > 0,
        ;
        lemma_truncate_middle(x as int, k as int, y as int);
        assert((k * x) % (k * y) == k * (x % y));
        lemma_gcd_scaled(k, y, x % y);
        assert(gcd(k * x, k * y) == gcd(k * y, (k * x) % (k * y)));
        assert(gcd(x, y) == gcd(y, x % y));
    } else {
        assert(k * y == 0) by (nonlinear_arith)
            requires
                y == 0,
        ;
        assert(gcd(x, y) == x);
    }
}

/// Reducing to lowest terms keeps the number, gives a positive
/// denominator, and leaves no common divisor but one.
pub proof fn lemma_lowest_terms(p: (int, int))
    requires
        p.1 != 0,
    ensures
        lowest_terms(p).1 > 0,
        same_value(lowest_terms(p), p),
        gcd(abs(lowest_terms(p).0), abs(lowest_terms(p).1)) == 1,
{
    let a = abs(p.0);
    let b = abs(p.1);
    lemma_gcd_divides(a, b);
    let g = gcd(a, b) as int;
    assert(g > 0);
    lemma_fundamental_div_mod(a as int, g);
    lemma_fundamental_div_mod(b as int, g);
    let ka = a as int / g;
    let kb = b as int / g;
    assert(a as int == g * ka);
    assert(b as int == g * kb);
    let sa: int = if p.0 < 0 { -1 } else { 1 };
    if p.0 < 0 {
        assert(a as int == -p.0);
    } else {
        assert(a as int == p.0);
    }
    assert(p.0 == g * (sa * ka)) by (nonlinear_arith)
        requires
            a as int == g * ka,
            sa == 1 || sa == -1,
            sa == 1 ==> a as int == p.0,
            sa == -1 ==> a as int == -p.0,
    ;
    assert(-p.0 == g * (-(sa * ka))) by (nonlinear_arith)
        requires
            p.0 == g * (sa * ka),
    ;
    lemma_div_multiples_vanish(sa * ka, g);
    lemma_div_multiples_vanish(-(sa * ka), g);
    lemma_div_multiples_vanish(kb, g);
    assert(kb > 0) by (nonlinear_arith)
        requires
            b as int == g * kb,
            g > 0,
            b > 0,
    ;
    let q = lowest_terms(p);
    assert(ka >= 0) by (nonlinear_arith)
        requires
            a as int == g * ka,
            g > 0,
    ;
    lemma_gcd_scaled(g as nat, ka as nat, kb as nat);
    assert(g * gcd(ka as nat, kb as nat) == g * 1);
    assert(gcd(ka as nat, kb as nat) == 1) by (nonlinear_arith)
        requires
            g * gcd(ka as nat, kb as nat) == g * 1,
            g > 0,
    ;
    if p.0 < 0 {
        assert(abs(q.0) == ka);
    } else {
        assert(abs(q.0) == ka);
    }
    if p.1 < 0 {
        assert(-p.1 == g * kb);
        assert(q == (-(sa * ka), kb));
        assert(same_value(q, p)) by (nonlinear_arith)
            requires
                q.0 == -(sa * ka),
                q.1 == kb,
                p.0 == g * (sa * ka),
                p.1 == -(g * kb),
        ;
    } else {
        assert(p.1 == g * kb);
        assert(q == (sa * ka, kb));
        assert(same_value(q, p)) by (nonlinear_arith)
            requires
                q.0 == sa * ka,
                q.1 == kb,
                p.0 == g * (sa * ka),
                p.1 == g * kb,
        ;
    }
}

/// A whole number over one is already in lowest terms.
pub proof fn lemma_lowest_terms_of_whole(n: int)
    ensures
        lowest_terms((n, 1)) == (n, 1int),
{
    let p: (int, int) = (n, 1);
    assert(abs(p.0) % 1 == 0);
    assert(gcd(abs(p.0), abs(p.1)) == gcd(1, 0));
    assert(gcd(abs(p.0), abs(p.1)) == 1);
}

/// Both parts lie below 2^31 in absolute value, and the denominator is positive.
pub open spec fn is_small(p: (i64, i64)) -> bool {
    -0x8000_0000 < p.0 < 0x8000_0000 && 0 < p.1 < 0x8000_0000
}

/// The fraction whose view is `p`.
pub closed spec fn rational_of(p: (i64, i64)) -> Rational {
    Rational { numer: p.0, denom: p.1 }
}

/// `rational_of` and the view undo each other.
pub proof fn lemma_rational_of(p: (i64, i64), r: Rational)
    ensures
        rational_of(p)@ == p,
        rational_of(r@) == r,
{
}

impl Rational {
    /// The integer `n` as a fraction `n/1`; this is all `Ratio::from_integer` does.
    pub fn from_integer(n: i64) -> (r: Rational)
        ensures
            r@ == (n, 1i64),
            pair_of(r@) == lowest_terms((n as int, 1int)),
    {
        proof {
            lemma_lowest_terms_of_whole(n as int);
        }
        Rational { numer: n, denom: 1 }
    }

    pub fn numer(&self) -> (n: i64)
        ensures
            n == self@.0,
    {
        self.numer
    }

    pub fn denom(&self) -> (d: i64)
        ensures
            d == self@.1,
    {
        self.denom
    }

    /// Calls `CheckedAdd::checked_add` on `Ratio<i64>`.
    /// Trusted: the result is `ratio_checked_add(a, b)`. When it is a
    /// fraction, it is `a + b` reduced to lowest terms with a positive
    /// denominator (`Ratio::new` reduces what it builds). Operands whose parts
    /// lie below 2^31 in absolute value never overflow the products the source
    /// forms, so the result is then a fraction. Which larger inputs overflow to
    /// `None` is not stated. The source never panics on positive denominators.
    #[verifier::external_body]
    pub fn checked_add(&self, other: &Rational) -> (res: Option<Rational>)
        requires
            self@.1 > 0,
            other@.1 > 0,
        ensures
            match res {
                Some(r) => ratio_checked_add(self@, other@) == Some(r@) && r@.1 > 0
                    && same_value(pair_of(r@), sum_of(self@, other@))
                    && pair_of(r@) == lowest_terms(sum_of(self@, other@)),
                None => ratio_checked_add(self@, other@) is None,
            },
            is_small(self@) && is_small(other@) ==> res is Some,
    {
        let a = Ratio::new_raw(self.numer, self.denom);
        let b = Ratio::new_raw(other.numer, other.denom);
        match a.checked_add(&b) {
            Some(r) => Some(Rational { numer: *r.numer(), denom: *r.denom() }),
            None => None,
        }
    }

    /// Calls `CheckedSub::checked_sub` on `Ratio<i64>`.
    /// Trusted: the result is `ratio_checked_sub(a, b)`. When it is a
    /// fraction, it is `a - b` reduced to lowest terms with a positive
    /// denominator. Small operands (as for `checked_add`) give a fraction.
    /// Which larger inputs overflow to `None` is not stated.
    #[verifier::external_body]
    pub fn checked_sub(&self, other: &Rational) -> (res: Option<Rational>)
        requires
            self@.1 > 0,
            other@.1 > 0,
        ensures
            match res {
                Some(r) => ratio_checked_sub(self@, other@) == Some(r@) && r@.1 > 0
                    && same_value(pair_of(r@), difference_of(self@, other@))
                    && pair_of(r@) == lowest_terms(difference_of(self@, other@)),
                None => ratio_checked_sub(self@, other@) is None,
            },
            is_small(self@) && is_small(other@) ==> res is Some,
    {
        let a = Ratio::new_raw(self.numer, self.denom);
        let b = Ratio::new_raw(other.numer, other.denom);
        match a.checked_sub(&b) {
            Some(r) => Some(Rational { numer: *r.numer(), denom: *r.denom() }),
            None => None,
        }
    }

    /// Calls `CheckedMul::checked_mul` on `Ratio<i64>`.
    /// Trusted: the result is `ratio_checked_mul(a, b)`. When it is a
    /// fraction, it is `a * b` reduced to lowest terms with a positive
    /// denominator. Small operands give a fraction. Which larger inputs
    /// overflow to `None` is not stated.
    #[verifier::external_body]
    pub fn checked_mul(&self, other: &Rational) -> (res: Option<Rational>)
        requires
            self@.1 > 0,
            other@.1 > 0,
        ensures
            match res {
                Some(r) => ratio_checked_mul(self@, other@) == Some(r@) && r@.1 > 0
                    && same_value(pair_of(r@), product_of(self@, other@))
                    && pair_of(r@) == lowest_terms(product_of(self@, other@)),
                None => ratio_checked_mul(self@, other@) is None,
            },
            is_small(self@) && is_small(other@) ==> res is Some,
    {
        let a = Ratio::new_raw(self.numer, self.denom);
        let b = Ratio::new_raw(other.numer, other.denom);
        match a.checked_mul(&b) {
            Some(r) => Some(Rational { numer: *r.numer(), denom: *r.denom() }),
            None => None,
        }
    }

    /// Calls `CheckedDiv::checked_div` on `Ratio<i64>`.
    /// Trusted: the result is `ratio_checked_div(a, b)`; it is `None` when `b`
    /// is zero. When it is a fraction, it is `a / b` reduced to lowest terms
    /// with a positive denominator. Small operands with a nonzero divisor give
    /// a fraction. Which other inputs overflow to `None` is not stated. The
    /// inputs of `div_panics` are not admitted.
    #[verifier::external_body]
    pub fn checked_div(&self, other: &Rational) -> (res: Option<Rational>)
        requires
            self@.1 > 0,
            other@.1 > 0,
            !div_panics(self@, other@),
        ensures
            other@.0 == 0 ==> res is None,
            match res {
                Some(r) => ratio_checked_div(self@, other@) == Some(r@) && r@.1 > 0
                    && same_value(pair_of(r@), quotient_of(self@, other@))
                    && pair_of(r@) == lowest_terms(quotient_of(self@, other@)),
                None => ratio_checked_div(self@, other@) is None,
            },
            is_small(self@) && is_small(other@) && other@.0 != 0 ==> res is Some,
    {
        let a = Ratio::new_raw(self.numer, self.denom);
        let b = Ratio::new_raw(other.numer, other.denom);
        match a.checked_div(&b) {
            Some(r) => Some(Rational { numer: *r.numer(), denom: *r.denom() }),
            None => None,
        }
    }

    /// Compares two fractions with `Ratio`'s `==`.
    /// Trusted: with positive denominators `Ratio` compares the numbers, not
    /// their representations, so the result is whether `a.n * b.d == b.n * a.d`.
    #[verifier::external_body]
    pub fn value_eq(&self, other: &Rational) -> (res: bool)
        requires
            self@.1 > 0,
            other@.1 > 0,
        ensures
            res == (self@.0 * other@.1 == other@.0 * self@.1),
    {
        Ratio::new_raw(self.numer, self.denom) == Ratio::new_raw(other.numer, other.denom)
    }
}

/// An integer in decimal, with a minus sign when negative.
pub open spec fn int_text(n: int) -> Seq<char> {
    if n < 0 {
        seq!['-'] + decimal((-n) as nat)
    } else {
        decimal(n as nat)
    }
}

/// A fraction as `Ratio` displays it: the numerator alone when the
/// denominator is one, else the numerator, a slash and the denominator.
pub open spec fn ratio_text(r: (i64, i64)) -> Seq<char> {
    if r.1 == 1 {
        int_text(r.0 as int)
    } else {
        int_text(r.0 as int) + seq!['/'] + int_text(r.1 as int)
    }
}

impl Rational {
    /// Formats the fraction with the `Display` implementation of
    /// `Ratio<i64>` (`format!("{}", ..)`). Trusted: its source writes the
    /// numerator when the denominator is one and `numerator/denominator`
    /// otherwise, each integer in decimal with its own minus sign (the sign
    /// it moves to the front is the numerator's).
    #[verifier::external_body]
    pub fn to_string(&self) -> (res: String)
        ensures
            res@ == ratio_text(self@),
    {
        format!("{}", Ratio::new_raw(self.numer, self.denom))
    }
}

} // verus!
