//! Exact rational coefficients.
//!
//! A [`Rational`] holds a fraction in lowest terms with a positive
//! denominator, both parts machine integers. The arithmetic itself is done by
//! the `num_rational` crate; this module states what is relied on from it and
//! builds a checked, total interface on top.

use num_rational::Ratio;
use num_traits::{CheckedAdd, CheckedDiv, CheckedMul};
use vstd::prelude::*;

verus! {

/// The mathematical view of a [`Rational`]: numerator over denominator.
pub struct Fraction {
    pub numer: int,
    pub denom: int,
}

/// `k` divides `n`.
pub open spec fn divides(k: int, n: int) -> bool {
    n % k == 0
}

/// `n / d` is in lowest terms with a positive denominator.
pub open spec fn lowest_terms(n: int, d: int) -> bool {
    &&& d > 0
    &&& forall|k: int| k >= 2 ==> !(#[trigger] divides(k, n) && divides(k, d))
}

/// `n` is representable as a machine integer.
pub open spec fn fits(n: int) -> bool {
    isize::MIN <= n <= isize::MAX
}

impl Fraction {
    /// The fraction is one a [`Rational`] can hold.
    pub open spec fn wf(self) -> bool {
        &&& fits(self.numer)
        &&& fits(self.denom)
        &&& lowest_terms(self.numer, self.denom)
    }

    /// The real number the fraction stands for.
    pub open spec fn value(self) -> real {
        (self.numer as real) / (self.denom as real)
    }

    /// The integer `n` as a fraction.
    pub open spec fn from_int(n: int) -> Fraction {
        Fraction { numer: n, denom: 1 }
    }

    /// `self` is less than `rhs`, both with positive denominators.
    pub open spec fn less_than(self, rhs: Fraction) -> bool {
        self.numer * rhs.denom < rhs.numer * self.denom
    }

    /// `self` is `a + b`.
    pub open spec fn is_sum_of(self, a: Fraction, b: Fraction) -> bool {
        self.numer * (a.denom * b.denom) == (a.numer * b.denom + b.numer * a.denom) * self.denom
    }

    /// `self` is `a * b`.
    pub open spec fn is_product_of(self, a: Fraction, b: Fraction) -> bool {
        self.numer * (a.denom * b.denom) == (a.numer * b.numer) * self.denom
    }

    /// `self` is `a / b`, for a nonzero `b`.
    pub open spec fn is_quotient_of(self, a: Fraction, b: Fraction) -> bool {
        self.numer * (a.denom * b.numer) == (a.numer * b.denom) * self.denom
    }
}

/// What `CheckedAdd::checked_add` of `Ratio` returns for `an/ad + bn/bd`, as
/// a numerator and a denominator.
pub uninterp spec fn ratio_checked_add(an: int, ad: int, bn: int, bd: int) -> Option<(int, int)>;

/// What `CheckedMul::checked_mul` of `Ratio` returns for `an/ad * bn/bd`.
pub uninterp spec fn ratio_checked_mul(an: int, ad: int, bn: int, bd: int) -> Option<(int, int)>;

/// What `CheckedDiv::checked_div` of `Ratio` returns for `(an/ad) / (bn/bd)`.
pub uninterp spec fn ratio_checked_div(an: int, ad: int, bn: int, bd: int) -> Option<(int, int)>;

/// The checked sum of two fractions: the sum in lowest terms where the
/// arithmetic crate computes it, `None` where it reports overflow.
pub open spec fn rat_add(a: Fraction, b: Fraction) -> Option<Fraction> {
    match ratio_checked_add(a.numer, a.denom, b.numer, b.denom) {
        Some(q) => {
            let r = Fraction { numer: q.0, denom: q.1 };
            if r.wf() && r.is_sum_of(a, b) {
                Some(r)
            } else {
                None
            }
        },
        None => None,
    }
}

/// The checked product of two fractions.
pub open spec fn rat_mul(a: Fraction, b: Fraction) -> Option<Fraction> {
    match ratio_checked_mul(a.numer, a.denom, b.numer, b.denom) {
        Some(q) => {
            let r = Fraction { numer: q.0, denom: q.1 };
            if r.wf() && r.is_product_of(a, b) {
                Some(r)
            } else {
                None
            }
        },
        None => None,
    }
}

/// The checked quotient of two fractions. Division by zero has no result,
/// and neither has division by a fraction whose numerator is the least
/// machine integer.
pub open spec fn rat_div(a: Fraction, b: Fraction) -> Option<Fraction> {
    if b.numer == 0 || b.numer == isize::MIN {
        None
    } else {
        match ratio_checked_div(a.numer, a.denom, b.numer, b.denom) {
            Some(q) => {
                let r = Fraction { numer: q.0, denom: q.1 };
                if r.wf() && r.is_quotient_of(a, b) {
                    Some(r)
                } else {
                    None
                }
            },
            None => None,
        }
    }
}

/// The checked negation of a fraction: `None` exactly when the numerator
/// cannot be negated in a machine integer.
pub open spec fn rat_neg(a: Fraction) -> Option<Fraction> {
    if a.numer == isize::MIN {
        None
    } else {
        Some(Fraction { numer: -a.numer, denom: a.denom })
    }
}

/// Calls `Ratio::from_integer`, which pairs the integer with denominator one.
#[verifier::external_body]
fn ratio_from_integer(n: isize) -> (r: (isize, isize))
    ensures
        r.0 == n,
        r.1 == 1,
{
    let q = Ratio::from_integer(n);
    (*q.numer(), *q.denom())
}

/// Calls `Ratio::new`, which brings `numer / denom` to lowest terms with a
/// positive denominator. The call panics on a zero denominator, and negating
/// the least machine integer overflows inside it, so both are left out.
#[verifier::external_body]
fn ratio_new(numer: isize, denom: isize) -> (r: (isize, isize))
    requires
        denom != 0,
        numer > isize::MIN,
        denom > isize::MIN,
    ensures
        lowest_terms(r.0 as int, r.1 as int),
        r.0 * denom == numer * r.1,
{
    let q = Ratio::new(numer, denom);
    (*q.numer(), *q.denom())
}

/// Calls `CheckedAdd::checked_add` of `Ratio` on two ratios in lowest terms,
/// built with `Ratio::new_raw`. A result, where there is one, is the sum in
/// lowest terms.
#[verifier::external_body]
fn ratio_add(an: isize, ad: isize, bn: isize, bd: isize) -> (r: Option<(isize, isize)>)
    requires
        lowest_terms(an as int, ad as int),
        lowest_terms(bn as int, bd as int),
    ensures
        ratio_checked_add(an as int, ad as int, bn as int, bd as int) == match r {
            Some(q) => Some((q.0 as int, q.1 as int)),
            None => None,
        },
        r matches Some(q) ==> lowest_terms(q.0 as int, q.1 as int) && q.0 * (ad * bd) == (an * bd
            + bn * ad) * q.1,
{
    match Ratio::new_raw(an, ad).checked_add(&Ratio::new_raw(bn, bd)) {
        Some(q) => Some((*q.numer(), *q.denom())),
        None => None,
    }
}

/// Calls `CheckedMul::checked_mul` of `Ratio` on two ratios in lowest terms.
/// A result, where there is one, is the product in lowest terms.
#[verifier::external_body]
fn ratio_mul(an: isize, ad: isize, bn: isize, bd: isize) -> (r: Option<(isize, isize)>)
    requires
        lowest_terms(an as int, ad as int),
        lowest_terms(bn as int, bd as int),
    ensures
        ratio_checked_mul(an as int, ad as int, bn as int, bd as int) == match r {
            Some(q) => Some((q.0 as int, q.1 as int)),
            None => None,
        },
        r matches Some(q) ==> lowest_terms(q.0 as int, q.1 as int) && q.0 * (ad * bd) == (an * bn)
            * q.1,
{
    match Ratio::new_raw(an, ad).checked_mul(&Ratio::new_raw(bn, bd)) {
        Some(q) => Some((*q.numer(), *q.denom())),
        None => None,
    }
}

/// Calls `CheckedDiv::checked_div` of `Ratio` on two ratios in lowest terms.
/// A result, where there is one, is the quotient in lowest terms; there is
/// none for a zero divisor.
/// The greatest common divisor taken inside overflows when one numerator is
/// zero and the other the least machine integer, so such a divisor is left
/// out.
#[verifier::external_body]
fn ratio_div(an: isize, ad: isize, bn: isize, bd: isize) -> (r: Option<(isize, isize)>)
    requires
        lowest_terms(an as int, ad as int),
        lowest_terms(bn as int, bd as int),
        bn > isize::MIN,
    ensures
        ratio_checked_div(an as int, ad as int, bn as int, bd as int) == match r {
            Some(q) => Some((q.0 as int, q.1 as int)),
            None => None,
        },
        r matches Some(q) ==> lowest_terms(q.0 as int, q.1 as int) && q.0 * (ad * bn) == (an * bd)
            * q.1,
        bn == 0 ==> r is None,
{
    match Ratio::new_raw(an, ad).checked_div(&Ratio::new_raw(bn, bd)) {
        Some(q) => Some((*q.numer(), *q.denom())),
        None => None,
    }
}

/// Calls `Neg::neg` of `Ratio`, which negates the numerator and keeps the
/// denominator. The least machine integer has no negation.
#[verifier::external_body]
fn ratio_neg(n: isize, d: isize) -> (r: (isize, isize))
    requires
        n > isize::MIN,
    ensures
        r.0 == -n,
        r.1 == d,
{
    let q = -Ratio::new_raw(n, d);
    (*q.numer(), *q.denom())
}

/// Compares two ratios with `PartialOrd::lt` of `Ratio`, whose order is the
/// order of the numbers they stand for.
#[verifier::external_body]
fn ratio_lt(an: isize, ad: isize, bn: isize, bd: isize) -> (r: bool)
    requires
        lowest_terms(an as int, ad as int),
        lowest_terms(bn as int, bd as int),
    ensures
        r == (an * bd < bn * ad),
{
    Ratio::new_raw(an, ad) < Ratio::new_raw(bn, bd)
}

/// An exact rational number: a fraction of machine integers in lowest terms
/// with a positive denominator.
#[derive(Clone, Copy, Debug, PartialEq, Eq, Hash, Structural)]
pub struct Rational {
    numer: isize,
    denom: isize,
}

impl View for Rational {
    type V = Fraction;

    closed spec fn view(&self) -> Fraction {
        Fraction { numer: self.numer as int, denom: self.denom as int }
    }
}

/// One is the only positive divisor of one.
proof fn lemma_integer_lowest_terms(n: int)
    ensures
        lowest_terms(n, 1),
{
    assert forall|k: int| k >= 2 implies !(#[trigger] divides(k, n) && divides(k, 1)) by {
        vstd::arithmetic::div_mod::lemma_small_mod(1, k as nat);
    }
}

/// Negating the numerator keeps a fraction in lowest terms.
proof fn lemma_neg_lowest_terms(n: int, d: int)
    requires
        lowest_terms(n, d),
    ensures
        lowest_terms(-n, d),
{
    assert forall|k: int| k >= 2 implies !(#[trigger] divides(k, -n) && divides(k, d)) by {
        if divides(k, -n) {
            let q = (-n) / k;
            vstd::arithmetic::div_mod::lemma_fundamental_div_mod(-n, k);
            assert(n == (-q) * k) by (nonlinear_arith)
                requires
                    -n == k * q,
            ;
            vstd::arithmetic::div_mod::lemma_mod_multiples_basic(-q, k);
            assert(divides(k, n));
        }
    }
}

impl Rational {
    /// Every value is in lowest terms with a positive denominator.
    #[verifier::type_invariant]
    pub open spec fn inv(&self) -> bool {
        self@.wf()
    }

    /// The integer `n` as a rational.
    pub fn from_integer(n: isize) -> (r: Rational)
        ensures
            r@ == Fraction::from_int(n as int),
            r@.wf(),
    {
        let q = ratio_from_integer(n);
        proof {
            lemma_integer_lowest_terms(n as int);
        }
        Rational { numer: q.0, denom: q.1 }
    }

    /// The rational `numer / denom` in lowest terms. There is none for a zero
    /// denominator, nor where a part is the least machine integer.
    pub fn new(numer: isize, denom: isize) -> (r: Option<Rational>)
        ensures
            r is Some <==> denom != 0 && numer > isize::MIN && denom > isize::MIN,
            r matches Some(q) ==> q@.wf() && q@.numer * denom == numer * q@.denom,
    {
        if denom == 0 || numer == isize::MIN || denom == isize::MIN {
            None
        } else {
            let q = ratio_new(numer, denom);
            Some(Rational { numer: q.0, denom: q.1 })
        }
    }

    /// The numerator, in lowest terms.
    pub fn numer(&self) -> (n: isize)
        ensures
            n == self@.numer,
    {
        self.numer
    }

    /// The denominator, in lowest terms; it is positive.
    pub fn denom(&self) -> (d: isize)
        ensures
            d == self@.denom,
            d > 0,
    {
        proof {
            use_type_invariant(self);
        }
        self.denom
    }

    /// Whether the number is zero.
    pub fn is_zero(&self) -> (z: bool)
        ensures
            z == (self@.numer == 0),
    {
        self.numer == 0
    }

    /// Whether the number is an integer.
    pub fn is_integer(&self) -> (z: bool)
        ensures
            z == (self@.denom == 1),
    {
        self.denom == 1
    }

    /// The absolute value of the numerator.
    pub fn numer_magnitude(&self) -> (m: usize)
        ensures
            m == if self@.numer >= 0 {
                self@.numer
            } else {
                -self@.numer
            },
    {
        if self.numer >= 0 {
            self.numer as usize
        } else {
            let below: isize = -(self.numer + 1);
            (below as usize) + 1
        }
    }

    /// Whether the number is less than `rhs`.
    pub fn less_than(&self, rhs: &Rational) -> (r: bool)
        ensures
            r == self@.less_than(rhs@),
    {
        proof {
            use_type_invariant(self);
            use_type_invariant(rhs);
        }
        ratio_lt(self.numer, self.denom, rhs.numer, rhs.denom)
    }

    /// The sum, or `None` on overflow.
    pub fn checked_add(&self, rhs: &Rational) -> (r: Option<Rational>)
        ensures
            self@.wf(),
            rhs@.wf(),
            match r {
                Some(q) => rat_add(self@, rhs@) == Some(q@),
                None => rat_add(self@, rhs@) is None,
            },
    {
        proof {
            use_type_invariant(self);
            use_type_invariant(rhs);
        }
        match ratio_add(self.numer, self.denom, rhs.numer, rhs.denom) {
            Some(q) => Some(Rational { numer: q.0, denom: q.1 }),
            None => None,
        }
    }

    /// The product, or `None` on overflow.
    pub fn checked_mul(&self, rhs: &Rational) -> (r: Option<Rational>)
        ensures
            self@.wf(),
            rhs@.wf(),
            match r {
                Some(q) => rat_mul(self@, rhs@) == Some(q@),
                None => rat_mul(self@, rhs@) is None,
            },
    {
        proof {
            use_type_invariant(self);
            use_type_invariant(rhs);
        }
        match ratio_mul(self.numer, self.denom, rhs.numer, rhs.denom) {
            Some(q) => Some(Rational { numer: q.0, denom: q.1 }),
            None => None,
        }
    }

    /// The quotient, or `None` on overflow or for a zero divisor.
    pub fn checked_div(&self, rhs: &Rational) -> (r: Option<Rational>)
        ensures
            self@.wf(),
            rhs@.wf(),
            match r {
                Some(q) => rat_div(self@, rhs@) == Some(q@),
                None => rat_div(self@, rhs@) is None,
            },
    {
        proof {
            use_type_invariant(self);
            use_type_invariant(rhs);
        }
        if rhs.numer == isize::MIN {
            return None;
        }
        match ratio_div(self.numer, self.denom, rhs.numer, rhs.denom) {
            Some(q) => Some(Rational { numer: q.0, denom: q.1 }),
            None => None,
        }
    }

    /// The negation, or `None` where the numerator has none.
    pub fn checked_neg(&self) -> (r: Option<Rational>)
        ensures
            self@.wf(),
            match r {
                Some(q) => rat_neg(self@) == Some(q@),
                None => rat_neg(self@) is None,
            },
    {
        proof {
            use_type_invariant(self);
        }
        if self.numer == isize::MIN {
            None
        } else {
            let q = ratio_neg(self.numer, self.denom);
            proof {
                lemma_neg_lowest_terms(self.numer as int, self.denom as int);
            }
            Some(Rational { numer: q.0, denom: q.1 })
        }
    }
}

/// A checked sum stands for the sum of the two real values.
pub proof fn lemma_add_value(a: Fraction, b: Fraction)
    requires
        a.denom > 0,
        b.denom > 0,
    ensures
        rat_add(a, b) matches Some(q) ==> q.wf() && q.value() == a.value() + b.value(),
{
    if let Some(q) = rat_add(a, b) {
        let (an, ad, bn, bd, qn, qd) = (a.numer, a.denom, b.numer, b.denom, q.numer, q.denom);
        assert((qn as real) / (qd as real) == (an as real) / (ad as real) + (bn as real) / (
        bd as real)) by (nonlinear_arith)
            requires
                ad > 0,
                bd > 0,
                qd > 0,
                qn * (ad * bd) == (an * bd + bn * ad) * qd,
        ;
    }
}

/// A checked product stands for the product of the two real values.
pub proof fn lemma_mul_value(a: Fraction, b: Fraction)
    requires
        a.denom > 0,
        b.denom > 0,
    ensures
        rat_mul(a, b) matches Some(q) ==> q.wf() && q.value() == a.value() * b.value(),
{
    if let Some(q) = rat_mul(a, b) {
        let (an, ad, bn, bd, qn, qd) = (a.numer, a.denom, b.numer, b.denom, q.numer, q.denom);
        assert((qn as real) / (qd as real) == ((an as real) / (ad as real)) * ((bn as real) / (
        bd as real))) by (nonlinear_arith)
            requires
                ad > 0,
                bd > 0,
                qd > 0,
                qn * (ad * bd) == (an * bn) * qd,
        ;
    }
}

/// A checked quotient, multiplied by the divisor, gives back the dividend.
pub proof fn lemma_div_value(a: Fraction, b: Fraction)
    requires
        a.denom > 0,
        b.denom > 0,
    ensures
        rat_div(a, b) matches Some(q) ==> q.wf() && b.numer != 0 && q.value() * b.value()
            == a.value(),
{
    if let Some(q) = rat_div(a, b) {
        let (an, ad, bn, bd, qn, qd) = (a.numer, a.denom, b.numer, b.denom, q.numer, q.denom);
        assert(((qn as real) / (qd as real)) * ((bn as real) / (bd as real)) == (an as real) / (
        ad as real)) by (nonlinear_arith)
            requires
                ad > 0,
                bd > 0,
                qd > 0,
                bn != 0,
                qn * (ad * bn) == (an * bd) * qd,
        ;
    }
}

/// A checked negation of a fraction with a positive denominator stands for
/// the negated real value.
pub proof fn lemma_neg_value_positive(a: Fraction)
    requires
        a.denom > 0,
    ensures
        rat_neg(a) matches Some(q) ==> q.denom > 0 && q.value() == -a.value(),
{
    let (an, ad) = (a.numer, a.denom);
    assert(((-an) as real) / (ad as real) == -((an as real) / (ad as real))) by (nonlinear_arith)
        requires
            ad > 0,
    ;
}

/// A fraction with a positive denominator is zero exactly when its numerator is.
pub proof fn lemma_zero_value(a: Fraction)
    requires
        a.denom > 0,
    ensures
        a.value() == 0real <==> a.numer == 0,
{
    let (an, ad) = (a.numer, a.denom);
    assert(((an as real) / (ad as real) == 0real) <==> an == 0) by (nonlinear_arith)
        requires
            ad > 0,
    ;
}

} // verus!
