//! The order of factors, terms and rational expressions.
//!
//! Factors are ordered by name, then by exponent; terms by factor list, then
//! by coefficient; rational expressions by numerator, then by denominator.
//! Lists are ordered lexicographically.

use crate::factor::{Factor, FactorModel};
use crate::order::as_index;
use crate::rational::{Fraction, Rational};
use crate::rational_expr::{RationalExpression, RationalModel};
use crate::term::{CanonicalTerm, factor_lt, factor_precedes, factors_precede, mono_lt, TermModel};
use crate::terms::{first_difference, terms_tie};
use core::cmp::Ordering;
use vstd::prelude::*;

verus! {

/// How two factors compare.
pub open spec fn factor_ordering(a: FactorModel, b: FactorModel) -> Ordering {
    if factor_lt(a, b) {
        Ordering::Less
    } else if factor_lt(b, a) {
        Ordering::Greater
    } else {
        Ordering::Equal
    }
}

/// How two factor lists compare.
pub open spec fn factors_ordering(a: Seq<FactorModel>, b: Seq<FactorModel>) -> Ordering {
    if mono_lt(a, b) {
        Ordering::Less
    } else if mono_lt(b, a) {
        Ordering::Greater
    } else {
        Ordering::Equal
    }
}

/// How two rational numbers compare.
pub open spec fn fraction_ordering(a: Fraction, b: Fraction) -> Ordering {
    if a.less_than(b) {
        Ordering::Less
    } else if b.less_than(a) {
        Ordering::Greater
    } else {
        Ordering::Equal
    }
}

/// How two terms compare: by factor list, then by coefficient.
pub open spec fn term_ordering(a: TermModel, b: TermModel) -> Ordering {
    match factors_ordering(a.factors, b.factors) {
        Ordering::Equal => fraction_ordering(a.coef, b.coef),
        Ordering::Less => Ordering::Less,
        Ordering::Greater => Ordering::Greater,
    }
}

/// How two lists of terms compare: lexicographically.
pub open spec fn terms_ordering(a: Seq<TermModel>, b: Seq<TermModel>) -> Ordering
    decreases a.len(),
{
    if a.len() == 0 {
        if b.len() == 0 {
            Ordering::Equal
        } else {
            Ordering::Less
        }
    } else if b.len() == 0 {
        Ordering::Greater
    } else {
        match term_ordering(a[0], b[0]) {
            Ordering::Equal => terms_ordering(a.drop_first(), b.drop_first()),
            Ordering::Less => Ordering::Less,
            Ordering::Greater => Ordering::Greater,
        }
    }
}

/// How two rational expressions compare: by numerator, then by denominator.
pub open spec fn expression_ordering(a: RationalModel, b: RationalModel) -> Ordering {
    match terms_ordering(a.numer, b.numer) {
        Ordering::Equal => terms_ordering(a.denom, b.denom),
        Ordering::Less => Ordering::Less,
        Ordering::Greater => Ordering::Greater,
    }
}

/// The order of two lists that agree up to `i` is that of what follows.
proof fn lemma_terms_ordering_skip(a: Seq<TermModel>, b: Seq<TermModel>, i: int)
    requires
        0 <= i <= a.len(),
        i <= b.len(),
        forall|j: int| 0 <= j < i ==> term_ordering(a[j], b[j]) == Ordering::Equal,
    ensures
        terms_ordering(a, b) == terms_ordering(a.skip(i), b.skip(i)),
    decreases i,
{
    if i > 0 {
        assert(term_ordering(a[0], b[0]) == Ordering::Equal);
        assert forall|j: int| 0 <= j < i - 1 implies term_ordering(
            a.drop_first()[j],
            b.drop_first()[j],
        ) == Ordering::Equal by {
            assert(term_ordering(a[j + 1], b[j + 1]) == Ordering::Equal);
        }
        lemma_terms_ordering_skip(a.drop_first(), b.drop_first(), i - 1);
        assert(a.drop_first().skip(i - 1) =~= a.skip(i));
        assert(b.drop_first().skip(i - 1) =~= b.skip(i));
    } else {
        assert(a.skip(0) =~= a);
        assert(b.skip(0) =~= b);
    }
}

/// Compares two lists of terms.
pub fn order_terms(a: &Vec<CanonicalTerm>, b: &Vec<CanonicalTerm>) -> (r: Ordering)
    ensures
        r == terms_ordering(a.deep_view(), b.deep_view()),
{
    let i = first_difference(a, b);
    proof {
        let av = a.deep_view();
        let bv = b.deep_view();
        let k = as_index(i);
        assert forall|j: int| 0 <= j < k implies term_ordering(av[j], bv[j]) == Ordering::Equal by {
            assert(terms_tie(av[j], bv[j]));
        }
        lemma_terms_ordering_skip(av, bv, k);
        if k < av.len() && k < bv.len() {
            assert(av.skip(k)[0] == av[k]);
            assert(bv.skip(k)[0] == bv[k]);
            assert(av[k] == a[k]@);
            assert(bv[k] == b[k]@);
        }
    }
    if i >= a.len() {
        if i >= b.len() {
            Ordering::Equal
        } else {
            Ordering::Less
        }
    } else if i >= b.len() {
        Ordering::Greater
    } else {
        a[i].order(&b[i])
    }
}

impl Rational {
    /// How the number compares with `other`.
    pub fn order(&self, other: &Rational) -> (r: Ordering)
        ensures
            r == fraction_ordering(self@, other@),
    {
        if self.less_than(other) {
            Ordering::Less
        } else if other.less_than(self) {
            Ordering::Greater
        } else {
            Ordering::Equal
        }
    }
}

impl Factor {
    /// How the factor compares with `other`: by name, then by exponent.
    pub fn order(&self, other: &Factor) -> (r: Ordering)
        ensures
            r == factor_ordering(self@, other@),
    {
        if factor_precedes(self, other) {
            Ordering::Less
        } else if factor_precedes(other, self) {
            Ordering::Greater
        } else {
            Ordering::Equal
        }
    }
}

impl CanonicalTerm {
    /// How the term compares with `other`: by factor list, then by
    /// coefficient.
    pub fn order(&self, other: &CanonicalTerm) -> (r: Ordering)
        ensures
            r == term_ordering(self@, other@),
    {
        if factors_precede(&self.factors, &other.factors) {
            Ordering::Less
        } else if factors_precede(&other.factors, &self.factors) {
            Ordering::Greater
        } else {
            self.coef.order(&other.coef)
        }
    }
}

impl RationalExpression {
    /// How the expression compares with `other`: by numerator, then by
    /// denominator.
    pub fn order(&self, other: &RationalExpression) -> (r: Ordering)
        ensures
            r == expression_ordering(self@, other@),
    {
        match order_terms(self.numer(), other.numer()) {
            Ordering::Equal => order_terms(self.denom(), other.denom()),
            Ordering::Less => Ordering::Less,
            Ordering::Greater => Ordering::Greater,
        }
    }
}

impl PartialOrd for Rational {
    fn partial_cmp(&self, other: &Self) -> (r: Option<Ordering>)
        ensures
            r == Some(fraction_ordering(self@, other@)),
    {
        Some(self.order(other))
    }
}

impl vstd::std_specs::cmp::PartialOrdSpecImpl for Rational {
    open spec fn obeys_partial_cmp_spec() -> bool {
        true
    }

    open spec fn partial_cmp_spec(&self, other: &Rational) -> Option<Ordering> {
        Some(fraction_ordering(self@, other@))
    }
}

impl PartialOrd for Factor {
    fn partial_cmp(&self, other: &Self) -> (r: Option<Ordering>)
        ensures
            r == Some(factor_ordering(self@, other@)),
    {
        Some(self.order(other))
    }
}

impl vstd::std_specs::cmp::PartialOrdSpecImpl for Factor {
    open spec fn obeys_partial_cmp_spec() -> bool {
        true
    }

    open spec fn partial_cmp_spec(&self, other: &Factor) -> Option<Ordering> {
        Some(factor_ordering(self@, other@))
    }
}

impl PartialOrd for CanonicalTerm {
    fn partial_cmp(&self, other: &Self) -> (r: Option<Ordering>)
        ensures
            r == Some(term_ordering(self@, other@)),
    {
        Some(self.order(other))
    }
}

impl vstd::std_specs::cmp::PartialOrdSpecImpl for CanonicalTerm {
    open spec fn obeys_partial_cmp_spec() -> bool {
        true
    }

    open spec fn partial_cmp_spec(&self, other: &CanonicalTerm) -> Option<Ordering> {
        Some(term_ordering(self@, other@))
    }
}

impl PartialOrd for RationalExpression {
    fn partial_cmp(&self, other: &Self) -> (r: Option<Ordering>)
        ensures
            r == Some(expression_ordering(self@, other@)),
    {
        Some(self.order(other))
    }
}

impl vstd::std_specs::cmp::PartialOrdSpecImpl for RationalExpression {
    open spec fn obeys_partial_cmp_spec() -> bool {
        true
    }

    open spec fn partial_cmp_spec(&self, other: &RationalExpression) -> Option<Ordering> {
        Some(expression_ordering(self@, other@))
    }
}

} // verus!
