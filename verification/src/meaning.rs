//! What the checked operations on lists of terms mean: where one succeeds,
//! its result stands for the sum, product, negation or quotient of the
//! polynomials that its arguments stand for.

use crate::coefficients::{
    coef, has_exponents, lemma_coef_concat, lemma_coef_push, lemma_combined_coef,
    positive_denominators, same_polynomial, sem, sem_term, SemTerm,
};
use crate::factor::{exponent_of, FactorModel, is_normal_form, normal_form};
use crate::rational::{lemma_div_value, lemma_mul_value, lemma_neg_value_positive, lemma_zero_value};
use crate::rational_expr::negated;
use crate::ring::{inverse_factors, negation, over_term, term_times, times, times_term};
use crate::term::{reciprocal_factors, term_div, term_mul, term_neg, TermModel};
use crate::terms::{products, quotients, scaled, terms_product, terms_quotient, terms_sum};
use vstd::prelude::*;

verus! {

/// A normal form has the exponents of what it is the normal form of.
pub proof fn lemma_normal_form_exponents(
    fs: Seq<FactorModel>,
    m: Seq<FactorModel>,
    e: spec_fn(Seq<char>) -> int,
)
    requires
        normal_form(fs) == Some(m),
    ensures
        has_exponents(m, e) <==> has_exponents(fs, e),
{
    assert(is_normal_form(m, fs));
    if has_exponents(m, e) {
        assert forall|v: Seq<char>| e(v) == #[trigger] exponent_of(fs, v) by {
            assert(e(v) == exponent_of(m, v));
        }
    }
    if has_exponents(fs, e) {
        assert forall|v: Seq<char>| e(v) == #[trigger] exponent_of(m, v) by {
            assert(e(v) == exponent_of(fs, v));
        }
    }
}

/// The products of one term with a list, as the checked product gives
/// them, stand for the product.
pub proof fn lemma_scaled_meaning(t: TermModel, q: Seq<TermModel>)
    requires
        t.coef.denom > 0,
        positive_denominators(q),
        scaled(t, q) is Some,
    ensures
        positive_denominators(scaled(t, q).unwrap()),
        scaled(t, q).unwrap().len() == q.len(),
        same_polynomial(sem(scaled(t, q).unwrap()), times_term(sem_term(t), sem(q))),
    decreases q.len(),
{
    let s = scaled(t, q).unwrap();
    if q.len() > 0 {
        let front = q.drop_last();
        assert forall|i: int| 0 <= i < front.len() implies (#[trigger] front[i]).coef.denom > 0 by {
            assert(q[i].coef.denom > 0);
        }
        assert(q[q.len() - 1].coef.denom > 0);
        lemma_scaled_meaning(t, front);
        let sf = scaled(t, front).unwrap();
        let u = term_mul(t, q.last()).unwrap();
        lemma_mul_value(t.coef, q.last().coef);
        assert(s == sf.push(u));
        assert forall|i: int| 0 <= i < s.len() implies (#[trigger] s[i]).coef.denom > 0 by {
            if i < sf.len() {
                assert(sf[i].coef.denom > 0);
            }
        }
        assert forall|e: spec_fn(Seq<char>) -> int| #[trigger]
            coef(sem(s), e) == coef(times_term(sem_term(t), sem(q)), e) by {
            let want = times_term(sem_term(t), sem(q));
            assert(sem(s) =~= sem(sf).push(sem_term(u)));
            assert(want =~= times_term(sem_term(t), sem(front)).push(
                term_times(sem_term(t), sem_term(q.last())),
            ));
            lemma_coef_push(sem(sf), sem_term(u), e);
            lemma_coef_push(
                times_term(sem_term(t), sem(front)),
                term_times(sem_term(t), sem_term(q.last())),
                e,
            );
            lemma_normal_form_exponents(t.factors + q.last().factors, u.factors, e);
            assert(coef(sem(sf), e) == coef(times_term(sem_term(t), sem(front)), e));
        }
    } else {
        assert(sem(s) =~= times_term(sem_term(t), sem(q)));
    }
}

/// The products of two lists, as the checked product gives them, stand for
/// the product.
pub proof fn lemma_products_meaning(p: Seq<TermModel>, q: Seq<TermModel>)
    requires
        positive_denominators(p),
        positive_denominators(q),
        products(p, q) is Some,
    ensures
        positive_denominators(products(p, q).unwrap()),
        same_polynomial(sem(products(p, q).unwrap()), times(sem(p), sem(q))),
    decreases p.len(),
{
    let r = products(p, q).unwrap();
    if p.len() > 0 {
        let front = p.drop_last();
        assert forall|i: int| 0 <= i < front.len() implies (#[trigger] front[i]).coef.denom > 0 by {
            assert(p[i].coef.denom > 0);
        }
        assert(p[p.len() - 1].coef.denom > 0);
        lemma_products_meaning(front, q);
        lemma_scaled_meaning(p.last(), q);
        let rf = products(front, q).unwrap();
        let s = scaled(p.last(), q).unwrap();
        assert(r == rf + s);
        assert forall|i: int| 0 <= i < r.len() implies (#[trigger] r[i]).coef.denom > 0 by {
            if i < rf.len() {
                assert(rf[i].coef.denom > 0);
            } else {
                assert(s[i - rf.len()].coef.denom > 0);
            }
        }
        assert forall|e: spec_fn(Seq<char>) -> int| #[trigger]
            coef(sem(r), e) == coef(times(sem(p), sem(q)), e) by {
            assert(sem(r) =~= sem(rf) + sem(s));
            assert(sem(p).drop_last() =~= sem(front));
            assert(sem(p).last() == sem_term(p.last()));
            lemma_coef_concat(sem(rf), sem(s), e);
            lemma_coef_concat(
                times(sem(front), sem(q)),
                times_term(sem_term(p.last()), sem(q)),
                e,
            );
            assert(coef(sem(rf), e) == coef(times(sem(front), sem(q)), e));
            assert(coef(sem(s), e) == coef(times_term(sem_term(p.last()), sem(q)), e));
        }
    } else {
        assert(sem(r) =~= times(sem(p), sem(q)));
    }
}

/// The checked product of two lists stands for the product.
pub proof fn lemma_product_meaning(p: Seq<TermModel>, q: Seq<TermModel>)
    requires
        positive_denominators(p),
        positive_denominators(q),
        terms_product(p, q) is Some,
    ensures
        positive_denominators(terms_product(p, q).unwrap()),
        same_polynomial(sem(terms_product(p, q).unwrap()), times(sem(p), sem(q))),
{
    lemma_products_meaning(p, q);
    let raw = products(p, q).unwrap();
    let r = terms_product(p, q).unwrap();
    assert forall|e: spec_fn(Seq<char>) -> int| #[trigger]
        coef(sem(r), e) == coef(times(sem(p), sem(q)), e) by {
        lemma_combined_coef(raw, e);
        assert(coef(sem(raw), e) == coef(times(sem(p), sem(q)), e));
    }
    lemma_combined_coef(raw, exponents_of_nothing());
}

/// Exponents of zero for every variable.
pub open spec fn exponents_of_nothing() -> spec_fn(Seq<char>) -> int {
    |v: Seq<char>| 0int
}

/// The checked sum of two lists stands for the sum.
pub proof fn lemma_sum_meaning(p: Seq<TermModel>, q: Seq<TermModel>)
    requires
        positive_denominators(p),
        positive_denominators(q),
        terms_sum(p, q) is Some,
    ensures
        positive_denominators(terms_sum(p, q).unwrap()),
        same_polynomial(sem(terms_sum(p, q).unwrap()), sem(p) + sem(q)),
{
    let r = terms_sum(p, q).unwrap();
    assert forall|i: int| 0 <= i < (p + q).len() implies (#[trigger] (p + q)[i]).coef.denom > 0 by {
        if i < p.len() {
            assert(p[i].coef.denom > 0);
        } else {
            assert(q[i - p.len()].coef.denom > 0);
        }
    }
    assert(sem(p + q) =~= sem(p) + sem(q));
    assert forall|e: spec_fn(Seq<char>) -> int| #[trigger]
        coef(sem(r), e) == coef(sem(p) + sem(q), e) by {
        lemma_combined_coef(p + q, e);
    }
    lemma_combined_coef(p + q, exponents_of_nothing());
}

/// The checked negation of a list stands for the negation.
pub proof fn lemma_negated_meaning(p: Seq<TermModel>)
    requires
        positive_denominators(p),
        negated(p) is Some,
    ensures
        positive_denominators(negated(p).unwrap()),
        negated(p).unwrap().len() == p.len(),
        sem(negated(p).unwrap()) == negation(sem(p)),
    decreases p.len(),
{
    let r = negated(p).unwrap();
    if p.len() > 0 {
        let front = p.drop_last();
        assert forall|i: int| 0 <= i < front.len() implies (#[trigger] front[i]).coef.denom > 0 by {
            assert(p[i].coef.denom > 0);
        }
        assert(p[p.len() - 1].coef.denom > 0);
        lemma_negated_meaning(front);
        lemma_neg_value_positive(p.last().coef);
        let rf = negated(front).unwrap();
        let u = term_neg(p.last()).unwrap();
        assert(r == rf.push(u));
        assert forall|i: int| 0 <= i < r.len() implies (#[trigger] r[i]).coef.denom > 0 by {
            if i < rf.len() {
                assert(rf[i].coef.denom > 0);
            }
        }
        assert forall|i: int| 0 <= i < r.len() implies sem(r)[i] == negation(sem(p))[i] by {
            if i < rf.len() {
                assert(sem(rf)[i] == negation(sem(front))[i]);
            }
        }
        assert(sem(r) =~= negation(sem(p)));
    } else {
        assert(sem(r) =~= negation(sem(p)));
    }
}

/// The quotients of a list by a term, as the checked quotient gives them,
/// stand for the quotient.
pub proof fn lemma_quotients_meaning(p: Seq<TermModel>, t: TermModel)
    requires
        positive_denominators(p),
        t.coef.denom > 0,
        quotients(p, t) is Some,
    ensures
        positive_denominators(quotients(p, t).unwrap()),
        p.len() > 0 ==> t.coef.numer != 0,
        same_polynomial(sem(quotients(p, t).unwrap()), over_term(sem(p), sem_term(t))),
    decreases p.len(),
{
    let r = quotients(p, t).unwrap();
    if p.len() > 0 {
        let front = p.drop_last();
        assert forall|i: int| 0 <= i < front.len() implies (#[trigger] front[i]).coef.denom > 0 by {
            assert(p[i].coef.denom > 0);
        }
        assert(p[p.len() - 1].coef.denom > 0);
        lemma_quotients_meaning(front, t);
        let rf = quotients(front, t).unwrap();
        let x = p.last();
        let u = term_div(x, t).unwrap();
        lemma_div_value(x.coef, t.coef);
        lemma_zero_value(t.coef);
        assert(u.coef.value() == x.coef.value() / t.coef.value()) by (nonlinear_arith)
            requires
                u.coef.value() * t.coef.value() == x.coef.value(),
                t.coef.value() != 0real,
        ;
        assert(r == rf.push(u));
        assert forall|i: int| 0 <= i < r.len() implies (#[trigger] r[i]).coef.denom > 0 by {
            if i < rf.len() {
                assert(rf[i].coef.denom > 0);
            }
        }
        let rec = reciprocal_factors(t.factors).unwrap();
        assert(rec =~= inverse_factors(t.factors));
        assert forall|e: spec_fn(Seq<char>) -> int| #[trigger]
            coef(sem(r), e) == coef(over_term(sem(p), sem_term(t)), e) by {
            let want = over_term(sem(p), sem_term(t));
            let want_front = over_term(sem(front), sem_term(t));
            let last = SemTerm {
                value: x.coef.value() / t.coef.value(),
                factors: x.factors + inverse_factors(t.factors),
            };
            assert(sem(r) =~= sem(rf).push(sem_term(u)));
            assert(want =~= want_front.push(last));
            lemma_coef_push(sem(rf), sem_term(u), e);
            lemma_coef_push(want_front, last, e);
            lemma_normal_form_exponents(x.factors + rec, u.factors, e);
            assert(coef(sem(rf), e) == coef(want_front, e));
        }
    } else {
        assert(sem(r) =~= over_term(sem(p), sem_term(t)));
    }
}

/// The checked quotient of a list by a term stands for the quotient.
pub proof fn lemma_quotient_meaning(p: Seq<TermModel>, t: TermModel)
    requires
        positive_denominators(p),
        t.coef.denom > 0,
        terms_quotient(p, t) is Some,
    ensures
        positive_denominators(terms_quotient(p, t).unwrap()),
        same_polynomial(sem(terms_quotient(p, t).unwrap()), over_term(sem(p), sem_term(t))),
{
    lemma_quotients_meaning(p, t);
    let raw = quotients(p, t).unwrap();
    let r = terms_quotient(p, t).unwrap();
    assert forall|e: spec_fn(Seq<char>) -> int| #[trigger]
        coef(sem(r), e) == coef(over_term(sem(p), sem_term(t)), e) by {
        lemma_combined_coef(raw, e);
        assert(coef(sem(raw), e) == coef(over_term(sem(p), sem_term(t)), e));
    }
    lemma_combined_coef(raw, exponents_of_nothing());
}

} // verus!
