//! Three-valued equivalence of expressions, lifting of canonical forms back
//! into the tree, and partial substitution.
//!
//! `==` and `!=` on expressions are derived from [`Expr::equivalent`] and are
//! not complements of each other: both are false where equivalence is
//! unknown.

use crate::bindings::Bindings;
use crate::expr::{Expr, ExprModel};
use crate::lower::lower;
use crate::rational_expr::{partially_substituted, RationalExpression, RationalModel, simplified};
use crate::term::TermModel;
use vstd::prelude::*;

verus! {

/// Some constant term has a coefficient other than zero.
pub open spec fn has_nonzero_constant(numer: Seq<TermModel>) -> bool {
    exists|i: int|
        0 <= i < numer.len() && (#[trigger] numer[i]).is_constant() && numer[i].coef.numer != 0
}

/// Some term with a variable has a coefficient other than zero.
pub open spec fn has_nonzero_variable_term(numer: Seq<TermModel>) -> bool {
    exists|i: int|
        0 <= i < numer.len() && !(#[trigger] numer[i]).is_constant() && numer[i].coef.numer != 0
}

/// What the numerator of a difference says of the two sides: equal where it
/// is zero, unequal where it is a constant other than zero, unknown where a
/// variable is left in it.
pub open spec fn verdict(numer: Seq<TermModel>) -> Option<bool> {
    if !has_nonzero_constant(numer) && !has_nonzero_variable_term(numer) {
        Some(true)
    } else if has_nonzero_constant(numer) && !has_nonzero_variable_term(numer) {
        Some(false)
    } else {
        None
    }
}

/// Whether `a` and `b` are equal whatever the variables are bound to:
/// `Some(true)` where they are, `Some(false)` where they never are, `None`
/// where this cannot be told from the canonical form of `a - b`, or that
/// form cannot be computed.
pub open spec fn equivalence(a: ExprModel, b: ExprModel) -> Option<bool> {
    match lower(a.minus(b)) {
        Some(r) => match simplified(r) {
            Some(s) => verdict(s.numer),
            None => None,
        },
        None => None,
    }
}

/// A canonical form as an expression: simplified, then wrapped as a leaf.
pub open spec fn lifted(r: RationalModel) -> Option<ExprModel> {
    match simplified(r) {
        Some(s) => Some(ExprModel::Rational(s)),
        None => None,
    }
}

/// An expression with the bound variables replaced by their values and the
/// others left in place.
pub open spec fn partially_evaluated(e: ExprModel, b: Map<Seq<char>, usize>) -> Option<ExprModel> {
    match lower(e) {
        Some(r) => match partially_substituted(r, b) {
            Some(p) => lifted(p),
            None => None,
        },
        None => None,
    }
}

impl Expr {
    /// Lifts a canonical form into the tree: it is simplified, then wrapped
    /// as a leaf. `None` where it cannot be simplified.
    pub fn from_rational(rational: RationalExpression) -> (r: Option<Expr>)
        ensures
            match r {
                Some(e) => lifted(rational@) == Some(e@),
                None => lifted(rational@) is None,
            },
    {
        match rational.simplify() {
            Some(s) => Some(Expr::Rational(s)),
            None => None,
        }
    }

    /// Whether two expressions are equal whatever the variables are bound
    /// to.
    pub fn equivalent(&self, other: &Self) -> (r: Option<bool>)
        ensures
            r == equivalence(self@, other@),
    {
        let diff = self.clone() - other.clone();
        let lowered = match RationalExpression::from_dim(&diff) {
            Some(lowered) => lowered,
            None => {
                return None;
            },
        };
        let diff_rational = match lowered.simplify() {
            Some(s) => s,
            None => {
                return None;
            },
        };
        let numer = diff_rational.numer();
        let ghost terms = numer.deep_view();
        let mut has_constant = false;
        let mut has_variable_term = false;
        let mut i: usize = 0;
        while i < numer.len()
            invariant
                0 <= i <= numer.len(),
                terms == numer.deep_view(),
                has_constant == has_nonzero_constant(terms.take(i as int)),
                has_variable_term == has_nonzero_variable_term(terms.take(i as int)),
            decreases numer.len() - i,
        {
            let term = &numer[i];
            let ghost before = terms.take(i as int);
            let ghost now = terms.take(i as int + 1);
            assert(terms[i as int] == term@);
            let constant = term.is_constant();
            let zero = term.coef.is_zero();
            proof {
                assert(now[i as int] == term@);
                assert forall|j: int| 0 <= j < i implies now[j] == before[j] by {}
                if has_nonzero_constant(before) {
                    let j = choose|j: int|
                        0 <= j < before.len() && (#[trigger] before[j]).is_constant()
                            && before[j].coef.numer != 0;
                    assert(now[j] == before[j]);
                }
                if has_nonzero_variable_term(before) {
                    let j = choose|j: int|
                        0 <= j < before.len() && !(#[trigger] before[j]).is_constant()
                            && before[j].coef.numer != 0;
                    assert(now[j] == before[j]);
                }
                if has_nonzero_constant(now) {
                    let j = choose|j: int|
                        0 <= j < now.len() && (#[trigger] now[j]).is_constant() && now[j].coef.numer
                            != 0;
                    if j < i {
                        assert(before[j] == now[j]);
                    }
                }
                if has_nonzero_variable_term(now) {
                    let j = choose|j: int|
                        0 <= j < now.len() && !(#[trigger] now[j]).is_constant()
                            && now[j].coef.numer != 0;
                    if j < i {
                        assert(before[j] == now[j]);
                    }
                }
            }
            if !zero {
                if constant {
                    has_constant = true;
                } else {
                    has_variable_term = true;
                }
            }
            i += 1;
        }
        assert(terms.take(i as int) =~= terms);
        if !has_constant && !has_variable_term {
            Some(true)
        } else if has_constant && !has_variable_term {
            Some(false)
        } else {
            None
        }
    }

    /// Replaces the bound variables by their values and leaves the others
    /// in place. `None` where the canonical form cannot be computed.
    pub fn partial_substitute(&self, value: &Bindings) -> (r: Option<Expr>)
        ensures
            match r {
                Some(e) => partially_evaluated(self@, value@) == Some(e@),
                None => partially_evaluated(self@, value@) is None,
            },
    {
        let rational = match RationalExpression::from_dim(self) {
            Some(rational) => rational,
            None => {
                return None;
            },
        };
        let substituted = match rational.partial_substitute(value) {
            Some(substituted) => substituted,
            None => {
                return None;
            },
        };
        Expr::from_rational(substituted)
    }
}

impl PartialEq for Expr {
    /// Whether the two expressions are known to be equivalent.
    fn eq(&self, other: &Self) -> (r: bool)
        ensures
            r == (equivalence(self@, other@) == Some(true)),
    {
        match self.equivalent(other) {
            Some(verdict) => verdict,
            None => false,
        }
    }

    /// Whether the two expressions are known not to be equivalent.
    fn ne(&self, other: &Self) -> (r: bool)
        ensures
            r == (equivalence(self@, other@) == Some(false)),
    {
        match self.equivalent(other) {
            Some(verdict) => !verdict,
            None => false,
        }
    }
}

impl vstd::std_specs::cmp::PartialEqSpecImpl for Expr {
    open spec fn obeys_eq_spec() -> bool {
        false
    }

    open spec fn eq_spec(&self, other: &Expr) -> bool {
        equivalence(self@, other@) == Some(true)
    }
}

} // verus!
