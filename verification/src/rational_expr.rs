//! The canonical rational form: a sum of terms over a sum of terms.

use crate::bindings::Bindings;
use crate::eval::{ExprError, partial_terms, partial_values, sum_of_values, terms_value};
use crate::rational::{Fraction, rat_div, Rational};
use crate::term::{CanonicalTerm, combined, term_neg, TermModel};
use crate::terms::{clone_terms, terms_quotient};
use vstd::prelude::*;

verus! {

/// The mathematical view of a [`RationalExpression`].
pub struct RationalModel {
    pub numer: Seq<TermModel>,
    pub denom: Seq<TermModel>,
}

impl RationalModel {
    /// Zero over one.
    pub open spec fn zero() -> RationalModel {
        RationalModel { numer: seq![TermModel::constant(0)], denom: seq![TermModel::constant(1)] }
    }

    /// One over one.
    pub open spec fn one() -> RationalModel {
        RationalModel { numer: seq![TermModel::constant(1)], denom: seq![TermModel::constant(1)] }
    }

    /// `numer` over one.
    pub open spec fn whole(numer: Seq<TermModel>) -> RationalModel {
        RationalModel { numer, denom: seq![TermModel::constant(1)] }
    }
}

/// Every term negated, or `None` where a negation overflows.
pub open spec fn negated(terms: Seq<TermModel>) -> Option<Seq<TermModel>>
    decreases terms.len(),
{
    if terms.len() == 0 {
        Some(Seq::empty())
    } else {
        match (negated(terms.drop_last()), term_neg(terms.last())) {
            (Some(x), Some(y)) => Some(x.push(y)),
            _ => None,
        }
    }
}

/// The simplified form. A denominator of one term is divided into the
/// numerator, leaving the denominator one, and an empty quotient becomes
/// zero over one. A longer denominator is left in place, both sides with like
/// terms collected. `None` on overflow, on division by a term with
/// coefficient zero, and where the denominator collects to nothing.
pub open spec fn simplified(r: RationalModel) -> Option<RationalModel> {
    if r.denom.len() == 1 {
        match terms_quotient(r.numer, r.denom[0]) {
            Some(n) => if n.len() == 0 {
                Some(RationalModel::zero())
            } else {
                Some(RationalModel::whole(n))
            },
            None => None,
        }
    } else {
        match (combined(r.numer), combined(r.denom)) {
            (Some(n), Some(d)) => if d.len() == 0 {
                None
            } else {
                Some(RationalModel { numer: n, denom: d })
            },
            _ => None,
        }
    }
}

/// The value of a rational expression once every variable is bound.
pub open spec fn rational_value(r: RationalModel, b: Map<Seq<char>, usize>) -> Result<
    Fraction,
    ExprError,
> {
    match terms_value(r.numer, b) {
        Err(e) => Err(e),
        Ok(n) => match terms_value(r.denom, b) {
            Err(e) => Err(e),
            Ok(d) => match rat_div(n, d) {
                Some(q) => Ok(q),
                None => Err(
                    if d.numer == 0 {
                        ExprError::NonIntegerResult
                    } else {
                        ExprError::Overflow
                    },
                ),
            },
        },
    }
}

/// A rational expression with the bound variables folded into the
/// coefficients, like terms collected, and simplified.
pub open spec fn partially_substituted(r: RationalModel, b: Map<Seq<char>, usize>) -> Option<
    RationalModel,
> {
    match (partial_terms(r.numer, b), partial_terms(r.denom, b)) {
        (Some(n), Some(d)) => match (combined(n), combined(d)) {
            (Some(cn), Some(cd)) => if cd.len() == 0 {
                None
            } else {
                simplified(RationalModel { numer: cn, denom: cd })
            },
            _ => None,
        },
        _ => None,
    }
}

/// A negation that fails along a prefix fails along the list.
proof fn lemma_negated_prefix(terms: Seq<TermModel>, i: int)
    requires
        0 <= i <= terms.len(),
        negated(terms.take(i)) is None,
    ensures
        negated(terms) is None,
    decreases terms.len() - i,
{
    if i < terms.len() {
        assert(terms.take(i + 1).drop_last() =~= terms.take(i));
        lemma_negated_prefix(terms, i + 1);
    } else {
        assert(terms.take(i) =~= terms);
    }
}

/// Negates every term of a list.
pub fn negate_terms(terms: &Vec<CanonicalTerm>) -> (r: Option<Vec<CanonicalTerm>>)
    ensures
        match r {
            Some(out) => negated(terms.deep_view()) == Some(out.deep_view()),
            None => negated(terms.deep_view()) is None,
        },
{
    let ghost src = terms.deep_view();
    let mut out: Vec<CanonicalTerm> = Vec::new();
    let mut i: usize = 0;
    assert(src.take(0) =~= Seq::empty());
    assert(out.deep_view() =~= Seq::<TermModel>::empty());
    while i < terms.len()
        invariant
            0 <= i <= terms.len(),
            src == terms.deep_view(),
            negated(src.take(i as int)) == Some(out.deep_view()),
        decreases terms.len() - i,
    {
        let ghost before = out.deep_view();
        assert(src[i as int] == terms[i as int]@);
        assert(src.take(i as int + 1).drop_last() =~= src.take(i as int));
        assert(src.take(i as int + 1).last() == src[i as int]);
        let mut t = terms[i].clone();
        if t.neg() {
            let ghost tv = t@;
            out.push(t);
            assert(out.deep_view() =~= before.push(tv));
        } else {
            proof {
                assert(negated(src.take(i as int + 1)) is None);
                lemma_negated_prefix(src, i as int + 1);
            }
            return None;
        }
        i += 1;
    }
    assert(src.take(i as int) =~= src);
    Some(out)
}

/// A rational expression in canonical form: a sum of terms over a sum of
/// terms. The denominator is never empty.
#[derive(Debug, PartialEq, Eq)]
pub struct RationalExpression {
    numer: Vec<CanonicalTerm>,
    denom: Vec<CanonicalTerm>,
}

impl View for RationalExpression {
    type V = RationalModel;

    closed spec fn view(&self) -> RationalModel {
        RationalModel { numer: self.numer.deep_view(), denom: self.denom.deep_view() }
    }
}

impl DeepView for RationalExpression {
    type V = RationalModel;

    open spec fn deep_view(&self) -> RationalModel {
        self@
    }
}

impl Clone for RationalExpression {
    fn clone(&self) -> (r: Self)
        ensures
            r@ == self@,
    {
        proof {
            use_type_invariant(self);
        }
        RationalExpression { numer: clone_terms(&self.numer), denom: clone_terms(&self.denom) }
    }
}

impl RationalExpression {
    /// The denominator is not empty.
    #[verifier::type_invariant]
    pub open spec fn inv(&self) -> bool {
        self@.denom.len() > 0
    }

    /// Zero over one.
    pub fn new_zero() -> (r: RationalExpression)
        ensures
            r@ == RationalModel::zero(),
    {
        let mut numer: Vec<CanonicalTerm> = Vec::new();
        numer.push(CanonicalTerm::new(0));
        let mut denom: Vec<CanonicalTerm> = Vec::new();
        denom.push(CanonicalTerm::new(1));
        assert(numer.deep_view() =~= seq![TermModel::constant(0)]);
        assert(denom.deep_view() =~= seq![TermModel::constant(1)]);
        RationalExpression { numer, denom }
    }

    /// One over one.
    pub fn new_one() -> (r: RationalExpression)
        ensures
            r@ == RationalModel::one(),
    {
        let mut numer: Vec<CanonicalTerm> = Vec::new();
        numer.push(CanonicalTerm::new(1));
        let mut denom: Vec<CanonicalTerm> = Vec::new();
        denom.push(CanonicalTerm::new(1));
        assert(numer.deep_view() =~= seq![TermModel::constant(1)]);
        assert(denom.deep_view() =~= seq![TermModel::constant(1)]);
        RationalExpression { numer, denom }
    }

    /// `numer` over one.
    pub fn whole(numer: Vec<CanonicalTerm>) -> (r: RationalExpression)
        ensures
            r@ == RationalModel::whole(numer.deep_view()),
    {
        let mut denom: Vec<CanonicalTerm> = Vec::new();
        denom.push(CanonicalTerm::new(1));
        assert(denom.deep_view() =~= seq![TermModel::constant(1)]);
        RationalExpression { numer, denom }
    }

    /// `numer` over `denom`; an empty denominator is refused.
    pub fn new(numer: Vec<CanonicalTerm>, denom: Vec<CanonicalTerm>) -> (r: Result<
        RationalExpression,
        ExprError,
    >)
        ensures
            match r {
                Ok(e) => denom.len() > 0 && e@ == (RationalModel {
                    numer: numer.deep_view(),
                    denom: denom.deep_view(),
                }),
                Err(e) => denom.len() == 0 && e == ExprError::MalformedRationalExpression,
            },
    {
        if denom.len() == 0 {
            Err(ExprError::MalformedRationalExpression)
        } else {
            Ok(RationalExpression { numer, denom })
        }
    }

    /// The terms of the numerator.
    pub fn numer(&self) -> (r: &Vec<CanonicalTerm>)
        ensures
            r.deep_view() == self@.numer,
    {
        &self.numer
    }

    /// The terms of the denominator; there is at least one.
    pub fn denom(&self) -> (r: &Vec<CanonicalTerm>)
        ensures
            r.deep_view() == self@.denom,
            r.len() > 0,
    {
        proof {
            use_type_invariant(self);
        }
        &self.denom
    }

    /// Negates the numerator in place. Where a negation overflows, the
    /// expression is left as it was and `false` is returned.
    pub fn neg(&mut self) -> (done: bool)
        ensures
            match negated(old(self)@.numer) {
                Some(n) => done && final(self)@ == (RationalModel {
                    numer: n,
                    denom: old(self)@.denom,
                }),
                None => !done && final(self)@ == old(self)@,
            },
    {
        proof {
            use_type_invariant(&*self);
        }
        match negate_terms(&self.numer) {
            Some(n) => {
                self.numer = n;
                true
            },
            None => false,
        }
    }

    /// The reciprocal: numerator and denominator exchanged. There is none
    /// for an empty numerator.
    pub fn invert(self) -> (r: Option<RationalExpression>)
        ensures
            match r {
                Some(e) => self@.numer.len() > 0 && e@ == (RationalModel {
                    numer: self@.denom,
                    denom: self@.numer,
                }),
                None => self@.numer.len() == 0,
            },
    {
        if self.numer.len() == 0 {
            None
        } else {
            Some(RationalExpression { numer: self.denom, denom: self.numer })
        }
    }

    /// The simplified form.
    pub fn simplify(&self) -> (r: Option<RationalExpression>)
        ensures
            match r {
                Some(e) => simplified(self@) == Some(e@),
                None => simplified(self@) is None,
            },
    {
        proof {
            use_type_invariant(self);
        }
        if self.denom.len() == 1 {
            assert(self@.denom[0] == self.denom[0]@);
            match CanonicalTerm::terms_divide_by_term(&self.numer, &self.denom[0]) {
                Some(n) => {
                    if n.len() == 0 {
                        Some(RationalExpression::new_zero())
                    } else {
                        Some(RationalExpression::whole(n))
                    }
                },
                None => None,
            }
        } else {
            let n = match CanonicalTerm::combine_like_terms(clone_terms(&self.numer)) {
                Some(n) => n,
                None => {
                    return None;
                },
            };
            let d = match CanonicalTerm::combine_like_terms(clone_terms(&self.denom)) {
                Some(d) => d,
                None => {
                    return None;
                },
            };
            if d.len() == 0 {
                None
            } else {
                Some(RationalExpression { numer: n, denom: d })
            }
        }
    }

    /// The value once every variable is bound: the sum of the numerator's
    /// terms over the sum of the denominator's.
    pub fn substitute(&self, value: &Bindings) -> (r: Result<Rational, ExprError>)
        ensures
            match r {
                Ok(q) => rational_value(self@, value@) == Ok::<Fraction, ExprError>(q@),
                Err(e) => rational_value(self@, value@) == Err::<Fraction, ExprError>(e),
            },
    {
        let n = match sum_of_values(&self.numer, value) {
            Ok(n) => n,
            Err(e) => {
                return Err(e);
            },
        };
        let d = match sum_of_values(&self.denom, value) {
            Ok(d) => d,
            Err(e) => {
                return Err(e);
            },
        };
        match n.checked_div(&d) {
            Some(q) => Ok(q),
            None => if d.is_zero() {
                Err(ExprError::NonIntegerResult)
            } else {
                Err(ExprError::Overflow)
            },
        }
    }

    /// Folds the bound variables into the coefficients, collects like terms
    /// and simplifies. Variables that are not bound stay.
    pub fn partial_substitute(&self, value: &Bindings) -> (r: Option<RationalExpression>)
        ensures
            match r {
                Some(e) => partially_substituted(self@, value@) == Some(e@),
                None => partially_substituted(self@, value@) is None,
            },
    {
        let n = match partial_values(&self.numer, value) {
            Some(n) => n,
            None => {
                return None;
            },
        };
        let d = match partial_values(&self.denom, value) {
            Some(d) => d,
            None => {
                return None;
            },
        };
        let cn = match CanonicalTerm::combine_like_terms(n) {
            Some(cn) => cn,
            None => {
                return None;
            },
        };
        let cd = match CanonicalTerm::combine_like_terms(d) {
            Some(cd) => cd,
            None => {
                return None;
            },
        };
        if cd.len() == 0 {
            return None;
        }
        let folded = RationalExpression { numer: cn, denom: cd };
        folded.simplify()
    }
}

} // verus!
