//! Evaluation of terms under bindings: the value of a term once every
//! variable is bound, and the folding of the bound variables into the
//! coefficient when only some are.

use crate::bindings::Bindings;
use crate::factor::{Factor, FactorModel};
use crate::rational::{Fraction, rat_add, rat_div, rat_mul, Rational};
use crate::term::{CanonicalTerm, TermModel};
use vstd::prelude::*;

verus! {

/// Why an expression has no value.
#[derive(Clone, Copy, Debug, PartialEq, Eq, Structural)]
pub enum ExprError {
    /// A variable of the expression is not bound.
    UnknownVariable,
    /// A difference is negative, a quotient is not whole, or the divisor is
    /// zero.
    NonIntegerResult,
    /// A rational expression has no denominator.
    MalformedRationalExpression,
    /// A number does not fit its machine integer.
    Overflow,
}

/// `c` multiplied `n` times by `v`, or divided, one step after the other.
pub open spec fn repeated(c: Fraction, v: Fraction, n: nat, divide: bool) -> Option<Fraction>
    decreases n,
{
    if n == 0 {
        Some(c)
    } else {
        match repeated(c, v, (n - 1) as nat, divide) {
            Some(x) => if divide {
                rat_div(x, v)
            } else {
                rat_mul(x, v)
            },
            None => None,
        }
    }
}

/// `c * value ^ exponent`, computed by repeated multiplication or division.
pub open spec fn fold_power_spec(c: Fraction, value: usize, exponent: int) -> Result<
    Fraction,
    ExprError,
> {
    if value > isize::MAX {
        Err(ExprError::Overflow)
    } else if exponent > 0 {
        match repeated(c, Fraction::from_int(value as int), exponent as nat, false) {
            Some(x) => Ok(x),
            None => Err(ExprError::Overflow),
        }
    } else if exponent < 0 {
        match repeated(c, Fraction::from_int(value as int), (-exponent) as nat, true) {
            Some(x) => Ok(x),
            None => Err(
                if value == 0 {
                    ExprError::NonIntegerResult
                } else {
                    ExprError::Overflow
                },
            ),
        }
    } else {
        Ok(c)
    }
}

/// The value, under `b`, of the coefficient and the first `n` factors of `t`.
pub open spec fn term_value_upto(t: TermModel, b: Map<Seq<char>, usize>, n: nat) -> Result<
    Fraction,
    ExprError,
>
    decreases n,
{
    if n == 0 {
        Ok(t.coef)
    } else {
        match term_value_upto(t, b, (n - 1) as nat) {
            Err(e) => Err(e),
            Ok(c) => {
                let f = t.factors[n - 1];
                if !b.contains_key(f.base) {
                    Err(ExprError::UnknownVariable)
                } else {
                    fold_power_spec(c, b[f.base], f.exponent)
                }
            },
        }
    }
}

/// The value of the term `t` under the bindings `b`.
pub open spec fn term_value(t: TermModel, b: Map<Seq<char>, usize>) -> Result<Fraction, ExprError> {
    term_value_upto(t, b, t.factors.len())
}

/// The sum, under `b`, of the values of the first `n` terms.
pub open spec fn terms_value_upto(terms: Seq<TermModel>, b: Map<Seq<char>, usize>, n: nat) -> Result<
    Fraction,
    ExprError,
>
    decreases n,
{
    if n == 0 {
        Ok(Fraction::from_int(0))
    } else {
        match terms_value_upto(terms, b, (n - 1) as nat) {
            Err(e) => Err(e),
            Ok(acc) => match term_value(terms[n - 1], b) {
                Err(e) => Err(e),
                Ok(v) => match rat_add(acc, v) {
                    Some(s) => Ok(s),
                    None => Err(ExprError::Overflow),
                },
            },
        }
    }
}

/// The sum of the values of the terms under the bindings `b`.
pub open spec fn terms_value(terms: Seq<TermModel>, b: Map<Seq<char>, usize>) -> Result<
    Fraction,
    ExprError,
> {
    terms_value_upto(terms, b, terms.len())
}

/// The first `n` factors of `t` with the bound ones folded into the
/// coefficient and the unbound ones kept.
pub open spec fn partial_term_upto(t: TermModel, b: Map<Seq<char>, usize>, n: nat) -> Option<
    TermModel,
>
    decreases n,
{
    if n == 0 {
        Some(TermModel { coef: t.coef, factors: Seq::empty() })
    } else {
        match partial_term_upto(t, b, (n - 1) as nat) {
            None => None,
            Some(acc) => {
                let f = t.factors[n - 1];
                if b.contains_key(f.base) {
                    match fold_power_spec(acc.coef, b[f.base], f.exponent) {
                        Ok(c) => Some(TermModel { coef: c, factors: acc.factors }),
                        Err(_) => None,
                    }
                } else if f.exponent != 0 {
                    Some(TermModel { coef: acc.coef, factors: acc.factors.push(f) })
                } else {
                    Some(acc)
                }
            },
        }
    }
}

/// The term `t` with its bound variables folded into the coefficient.
pub open spec fn partial_term(t: TermModel, b: Map<Seq<char>, usize>) -> Option<TermModel> {
    partial_term_upto(t, b, t.factors.len())
}

/// The first `n` terms, each with its bound variables folded in.
pub open spec fn partial_terms_upto(terms: Seq<TermModel>, b: Map<Seq<char>, usize>, n: nat) -> Option<
    Seq<TermModel>,
>
    decreases n,
{
    if n == 0 {
        Some(Seq::empty())
    } else {
        match (partial_terms_upto(terms, b, (n - 1) as nat), partial_term(terms[n - 1], b)) {
            (Some(acc), Some(t)) => Some(acc.push(t)),
            _ => None,
        }
    }
}

/// The terms, each with its bound variables folded in.
pub open spec fn partial_terms(terms: Seq<TermModel>, b: Map<Seq<char>, usize>) -> Option<
    Seq<TermModel>,
> {
    partial_terms_upto(terms, b, terms.len())
}

/// A repetition that fails after `k` steps fails after any more.
proof fn lemma_repeated_fails(c: Fraction, v: Fraction, k: nat, n: nat, divide: bool)
    requires
        k <= n,
        repeated(c, v, k, divide) is None,
    ensures
        repeated(c, v, n, divide) is None,
    decreases n - k,
{
    if k < n {
        lemma_repeated_fails(c, v, k + 1, n, divide);
    }
}

/// A value that fails after `k` factors fails after any more.
proof fn lemma_term_value_fails(t: TermModel, b: Map<Seq<char>, usize>, k: nat, n: nat)
    requires
        k <= n,
        term_value_upto(t, b, k) is Err,
    ensures
        term_value_upto(t, b, n) == term_value_upto(t, b, k),
    decreases n - k,
{
    if k < n {
        lemma_term_value_fails(t, b, k, (n - 1) as nat);
    }
}

/// A sum that fails after `k` terms fails after any more.
proof fn lemma_terms_value_fails(terms: Seq<TermModel>, b: Map<Seq<char>, usize>, k: nat, n: nat)
    requires
        k <= n,
        terms_value_upto(terms, b, k) is Err,
    ensures
        terms_value_upto(terms, b, n) == terms_value_upto(terms, b, k),
    decreases n - k,
{
    if k < n {
        lemma_terms_value_fails(terms, b, k, (n - 1) as nat);
    }
}

/// A folding that fails after `k` factors fails after any more.
proof fn lemma_partial_term_fails(t: TermModel, b: Map<Seq<char>, usize>, k: nat, n: nat)
    requires
        k <= n,
        partial_term_upto(t, b, k) is None,
    ensures
        partial_term_upto(t, b, n) is None,
    decreases n - k,
{
    if k < n {
        lemma_partial_term_fails(t, b, k, (n - 1) as nat);
    }
}

/// A folding that fails after `k` terms fails after any more.
proof fn lemma_partial_terms_fails(terms: Seq<TermModel>, b: Map<Seq<char>, usize>, k: nat, n: nat)
    requires
        k <= n,
        partial_terms_upto(terms, b, k) is None,
    ensures
        partial_terms_upto(terms, b, n) is None,
    decreases n - k,
{
    if k < n {
        lemma_partial_terms_fails(terms, b, k, (n - 1) as nat);
    }
}

/// The number of steps that an exponent asks for: its absolute value.
fn steps_of(exponent: isize) -> (n: usize)
    ensures
        n == if exponent >= 0 {
            exponent as int
        } else {
            -exponent
        },
{
    if exponent >= 0 {
        exponent as usize
    } else {
        let below: isize = -(exponent + 1);
        (below as usize) + 1
    }
}

/// Multiplies `c` by `value ^ exponent`, one multiplication or division for
/// each unit of the exponent.
pub fn fold_power(c: Rational, value: usize, exponent: isize) -> (r: Result<Rational, ExprError>)
    ensures
        match r {
            Ok(q) => fold_power_spec(c@, value, exponent as int) == Ok::<Fraction, ExprError>(q@),
            Err(e) => fold_power_spec(c@, value, exponent as int) == Err::<Fraction, ExprError>(e),
        },
{
    if value > isize::MAX as usize {
        return Err(ExprError::Overflow);
    }
    let v = Rational::from_integer(value as isize);
    let n = steps_of(exponent);
    let divide = exponent < 0;
    let mut acc = c;
    let mut i: usize = 0;
    while i < n
        invariant
            0 <= i <= n,
            value <= isize::MAX,
            divide == (exponent < 0),
            n == if exponent >= 0 {
                exponent as int
            } else {
                -exponent
            },
            v@ == Fraction::from_int(value as int),
            repeated(c@, v@, i as nat, divide) == Some(acc@),
        decreases n - i,
    {
        let next = if divide {
            acc.checked_div(&v)
        } else {
            acc.checked_mul(&v)
        };
        match next {
            Some(x) => {
                acc = x;
            },
            None => {
                proof {
                    assert(repeated(c@, v@, (i + 1) as nat, divide) is None);
                    lemma_repeated_fails(c@, v@, (i + 1) as nat, n as nat, divide);
                }
                if divide && value == 0 {
                    return Err(ExprError::NonIntegerResult);
                }
                return Err(ExprError::Overflow);
            },
        }
        i += 1;
    }
    Ok(acc)
}

impl CanonicalTerm {
    /// The value of the term once every variable of it is bound.
    pub fn value(&self, bindings: &Bindings) -> (r: Result<Rational, ExprError>)
        ensures
            match r {
                Ok(q) => term_value(self@, bindings@) == Ok::<Fraction, ExprError>(q@),
                Err(e) => term_value(self@, bindings@) == Err::<Fraction, ExprError>(e),
            },
    {
        let mut acc = self.coef;
        let mut i: usize = 0;
        while i < self.factors.len()
            invariant
                0 <= i <= self.factors.len(),
                term_value_upto(self@, bindings@, i as nat) == Ok::<Fraction, ExprError>(acc@),
            decreases self.factors.len() - i,
        {
            let f = &self.factors[i];
            assert(self@.factors[i as int] == f@);
            let folded = match bindings.get(f.base.as_str()) {
                None => Err(ExprError::UnknownVariable),
                Some(v) => fold_power(acc, v, f.exponent),
            };
            match folded {
                Ok(x) => {
                    acc = x;
                },
                Err(e) => {
                    proof {
                        assert(term_value_upto(self@, bindings@, (i + 1) as nat) == Err::<
                            Fraction,
                            ExprError,
                        >(e));
                        lemma_term_value_fails(
                            self@,
                            bindings@,
                            (i + 1) as nat,
                            self@.factors.len(),
                        );
                    }
                    return Err(e);
                },
            }
            i += 1;
        }
        Ok(acc)
    }

    /// The term with its bound variables folded into the coefficient, and
    /// the unbound ones kept. `None` where the folding overflows or divides
    /// by zero.
    pub fn partial_value(&self, bindings: &Bindings) -> (r: Option<CanonicalTerm>)
        ensures
            match r {
                Some(t) => partial_term(self@, bindings@) == Some(t@),
                None => partial_term(self@, bindings@) is None,
            },
    {
        let mut coef = self.coef;
        let mut kept: Vec<Factor> = Vec::new();
        let mut i: usize = 0;
        assert(kept.deep_view() =~= Seq::<FactorModel>::empty());
        while i < self.factors.len()
            invariant
                0 <= i <= self.factors.len(),
                partial_term_upto(self@, bindings@, i as nat) == Some(
                    TermModel { coef: coef@, factors: kept.deep_view() },
                ),
            decreases self.factors.len() - i,
        {
            let f = &self.factors[i];
            let ghost before = kept.deep_view();
            assert(self@.factors[i as int] == f@);
            match bindings.get(f.base.as_str()) {
                Some(v) => match fold_power(coef, v, f.exponent) {
                    Ok(c) => {
                        coef = c;
                    },
                    Err(_) => {
                        proof {
                            assert(partial_term_upto(self@, bindings@, (i + 1) as nat) is None);
                            lemma_partial_term_fails(
                                self@,
                                bindings@,
                                (i + 1) as nat,
                                self@.factors.len(),
                            );
                        }
                        return None;
                    },
                },
                None => {
                    if f.exponent != 0 {
                        let g = f.clone();
                        kept.push(g);
                        assert(kept.deep_view() =~= before.push(f@));
                    }
                },
            }
            i += 1;
        }
        Some(CanonicalTerm { coef, factors: kept })
    }
}

/// The sum of the values of the terms once every variable is bound.
pub fn sum_of_values(terms: &Vec<CanonicalTerm>, bindings: &Bindings) -> (r: Result<
    Rational,
    ExprError,
>)
    ensures
        match r {
            Ok(q) => terms_value(terms.deep_view(), bindings@) == Ok::<Fraction, ExprError>(q@),
            Err(e) => terms_value(terms.deep_view(), bindings@) == Err::<Fraction, ExprError>(e),
        },
{
    let ghost src = terms.deep_view();
    let mut acc = Rational::from_integer(0);
    let mut i: usize = 0;
    while i < terms.len()
        invariant
            0 <= i <= terms.len(),
            src == terms.deep_view(),
            terms_value_upto(src, bindings@, i as nat) == Ok::<Fraction, ExprError>(acc@),
        decreases terms.len() - i,
    {
        assert(src[i as int] == terms[i as int]@);
        let step = match terms[i].value(bindings) {
            Err(e) => Err(e),
            Ok(v) => match acc.checked_add(&v) {
                Some(s) => Ok(s),
                None => Err(ExprError::Overflow),
            },
        };
        match step {
            Ok(s) => {
                acc = s;
            },
            Err(e) => {
                proof {
                    assert(terms_value_upto(src, bindings@, (i + 1) as nat) == Err::<
                        Fraction,
                        ExprError,
                    >(e));
                    lemma_terms_value_fails(src, bindings@, (i + 1) as nat, src.len());
                }
                return Err(e);
            },
        }
        i += 1;
    }
    Ok(acc)
}

/// The terms, each with its bound variables folded into its coefficient.
pub fn partial_values(terms: &Vec<CanonicalTerm>, bindings: &Bindings) -> (r: Option<
    Vec<CanonicalTerm>,
>)
    ensures
        match r {
            Some(out) => partial_terms(terms.deep_view(), bindings@) == Some(out.deep_view()),
            None => partial_terms(terms.deep_view(), bindings@) is None,
        },
{
    let ghost src = terms.deep_view();
    let mut out: Vec<CanonicalTerm> = Vec::new();
    let mut i: usize = 0;
    assert(out.deep_view() =~= Seq::<TermModel>::empty());
    while i < terms.len()
        invariant
            0 <= i <= terms.len(),
            src == terms.deep_view(),
            partial_terms_upto(src, bindings@, i as nat) == Some(out.deep_view()),
        decreases terms.len() - i,
    {
        let ghost before = out.deep_view();
        assert(src[i as int] == terms[i as int]@);
        match terms[i].partial_value(bindings) {
            Some(t) => {
                let ghost tv = t@;
                out.push(t);
                assert(out.deep_view() =~= before.push(tv));
            },
            None => {
                proof {
                    assert(partial_terms_upto(src, bindings@, (i + 1) as nat) is None);
                    lemma_partial_terms_fails(src, bindings@, (i + 1) as nat, src.len());
                }
                return None;
            },
        }
        i += 1;
    }
    Some(out)
}

} // verus!
