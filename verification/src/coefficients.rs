//! What a list of terms means: for every assignment of exponents to the
//! variables, the real coefficient that the sum of the terms gives to the
//! monomial with those exponents.

use crate::factor::{
    exponent_of, exponents_fit, FactorModel, is_monomial, is_normal_form, lemma_monomial_unique,
    lemma_normal_form_is, normal_form,
};
use crate::normal::lemma_normal_form_exists;
use crate::rational::{lemma_add_value, lemma_zero_value};
use crate::term::{
    combinable, combined, group_sum, GroupSum, is_combined, lemma_mono_lt_properties, mono_lt,
    TermModel,
};
use vstd::prelude::*;

verus! {

/// A term with a real coefficient.
pub struct SemTerm {
    pub value: real,
    pub factors: Seq<FactorModel>,
}

/// A term with its coefficient read as a real number.
pub open spec fn sem_term(t: TermModel) -> SemTerm {
    SemTerm { value: t.coef.value(), factors: t.factors }
}

/// A list of terms with the coefficients read as real numbers.
pub open spec fn sem(terms: Seq<TermModel>) -> Seq<SemTerm> {
    Seq::new(terms.len(), |i: int| sem_term(terms[i]))
}

/// Every coefficient has a positive denominator.
pub open spec fn positive_denominators(terms: Seq<TermModel>) -> bool {
    forall|i: int| 0 <= i < terms.len() ==> (#[trigger] terms[i]).coef.denom > 0
}

/// The product of `fs` gives every variable the exponent that `e` names.
pub open spec fn has_exponents(fs: Seq<FactorModel>, e: spec_fn(Seq<char>) -> int) -> bool {
    forall|v: Seq<char>| e(v) == #[trigger] exponent_of(fs, v)
}

/// The exponents that the product of `fs` gives to the variables.
pub open spec fn exponents(fs: Seq<FactorModel>) -> spec_fn(Seq<char>) -> int {
    |v: Seq<char>| exponent_of(fs, v)
}

/// The coefficient that the sum of the terms gives to the monomial with the
/// exponents `e`.
pub open spec fn coef(p: Seq<SemTerm>, e: spec_fn(Seq<char>) -> int) -> real
    decreases p.len(),
{
    if p.len() == 0 {
        0real
    } else {
        coef(p.drop_last(), e) + if has_exponents(p.last().factors, e) {
            p.last().value
        } else {
            0real
        }
    }
}

/// Two lists of terms stand for the same polynomial.
pub open spec fn same_polynomial(p: Seq<SemTerm>, q: Seq<SemTerm>) -> bool {
    forall|e: spec_fn(Seq<char>) -> int| #[trigger] coef(p, e) == coef(q, e)
}

/// A list of terms stands for the zero polynomial.
pub open spec fn zero_polynomial(p: Seq<SemTerm>) -> bool {
    forall|e: spec_fn(Seq<char>) -> int| #[trigger] coef(p, e) == 0real
}

/// A coefficient depends on the exponents only, not on how they are named.
pub proof fn lemma_coef_ext(
    p: Seq<SemTerm>,
    e1: spec_fn(Seq<char>) -> int,
    e2: spec_fn(Seq<char>) -> int,
)
    requires
        forall|v: Seq<char>| #[trigger] e1(v) == e2(v),
    ensures
        coef(p, e1) == coef(p, e2),
    decreases p.len(),
{
    if p.len() > 0 {
        lemma_coef_ext(p.drop_last(), e1, e2);
        let fs = p.last().factors;
        assert(has_exponents(fs, e1) == has_exponents(fs, e2)) by {
            if has_exponents(fs, e1) {
                assert forall|v: Seq<char>| e2(v) == #[trigger] exponent_of(fs, v) by {
                    assert(e1(v) == e2(v));
                }
            }
            if has_exponents(fs, e2) {
                assert forall|v: Seq<char>| e1(v) == #[trigger] exponent_of(fs, v) by {
                    assert(e1(v) == e2(v));
                }
            }
        }
    }
}

/// The coefficients of a concatenation are the sums of the coefficients.
pub proof fn lemma_coef_concat(p: Seq<SemTerm>, q: Seq<SemTerm>, e: spec_fn(Seq<char>) -> int)
    ensures
        coef(p + q, e) == coef(p, e) + coef(q, e),
    decreases q.len(),
{
    if q.len() == 0 {
        assert(p + q =~= p);
    } else {
        lemma_coef_concat(p, q.drop_last(), e);
        assert((p + q).drop_last() =~= p + q.drop_last());
        assert((p + q).last() == q.last());
    }
}

/// The coefficient of a list of one term.
pub proof fn lemma_coef_single(t: SemTerm, e: spec_fn(Seq<char>) -> int)
    ensures
        coef(seq![t], e) == if has_exponents(t.factors, e) {
            t.value
        } else {
            0real
        },
{
    reveal_with_fuel(coef, 2);
    assert(seq![t].drop_last().len() == 0);
    assert(seq![t].last() == t);
}

/// Adding a term to the end of a list.
pub proof fn lemma_coef_push(p: Seq<SemTerm>, t: SemTerm, e: spec_fn(Seq<char>) -> int)
    ensures
        coef(p.push(t), e) == coef(p, e) + if has_exponents(t.factors, e) {
            t.value
        } else {
            0real
        },
{
    assert(p.push(t).drop_last() =~= p);
    assert(p.push(t).last() == t);
}

/// Where no term has the exponents, the coefficient is zero.
pub proof fn lemma_coef_none(p: Seq<SemTerm>, e: spec_fn(Seq<char>) -> int)
    requires
        forall|i: int| 0 <= i < p.len() ==> !has_exponents((#[trigger] p[i]).factors, e),
    ensures
        coef(p, e) == 0real,
    decreases p.len(),
{
    if p.len() > 0 {
        assert(!has_exponents(p[p.len() - 1].factors, e));
        assert forall|i: int| 0 <= i < p.drop_last().len() implies !has_exponents(
            (#[trigger] p.drop_last()[i]).factors,
            e,
        ) by {
            assert(!has_exponents(p[i].factors, e));
        }
        lemma_coef_none(p.drop_last(), e);
    }
}

/// Where one term only has the exponents, its coefficient is the
/// coefficient.
pub proof fn lemma_coef_one(p: Seq<SemTerm>, k: int, e: spec_fn(Seq<char>) -> int)
    requires
        0 <= k < p.len(),
        has_exponents(p[k].factors, e),
        forall|i: int| 0 <= i < p.len() && i != k ==> !has_exponents((#[trigger] p[i]).factors, e),
    ensures
        coef(p, e) == p[k].value,
    decreases p.len(),
{
    let front = p.drop_last();
    if k == p.len() - 1 {
        assert forall|i: int| 0 <= i < front.len() implies !has_exponents(
            (#[trigger] front[i]).factors,
            e,
        ) by {
            assert(!has_exponents(p[i].factors, e));
        }
        lemma_coef_none(front, e);
    } else {
        assert(!has_exponents(p[p.len() - 1].factors, e));
        assert forall|i: int| 0 <= i < front.len() && i != k implies !has_exponents(
            (#[trigger] front[i]).factors,
            e,
        ) by {
            assert(!has_exponents(p[i].factors, e));
        }
        lemma_coef_one(front, k, e);
    }
}

/// Two monomials with the same exponents are the same monomial.
pub proof fn lemma_exponents_name_one_monomial(
    a: Seq<FactorModel>,
    b: Seq<FactorModel>,
    e: spec_fn(Seq<char>) -> int,
)
    requires
        is_monomial(a),
        is_monomial(b),
        has_exponents(a, e),
        has_exponents(b, e),
    ensures
        a == b,
{
    assert forall|v: Seq<char>| exponent_of(a, v) == exponent_of(b, v) by {
        assert(e(v) == exponent_of(a, v));
        assert(e(v) == exponent_of(b, v));
    }
    lemma_monomial_unique(a, b);
}

/// A factor list whose running totals fit has the monomial `m` as its normal
/// form exactly when it has the exponents of `m`.
pub proof fn lemma_normal_form_by_exponents(
    fs: Seq<FactorModel>,
    m: Seq<FactorModel>,
    e: spec_fn(Seq<char>) -> int,
)
    requires
        is_monomial(m),
        has_exponents(m, e),
        exponents_fit(fs),
    ensures
        normal_form(fs) == Some(m) <==> has_exponents(fs, e),
{
    if has_exponents(fs, e) {
        assert forall|v: Seq<char>| exponent_of(m, v) == exponent_of(fs, v) by {
            assert(e(v) == exponent_of(m, v));
            assert(e(v) == exponent_of(fs, v));
        }
        lemma_normal_form_is(m, fs);
    }
    if normal_form(fs) == Some(m) {
        assert(is_normal_form(m, fs));
        assert forall|v: Seq<char>| e(v) == #[trigger] exponent_of(fs, v) by {
            assert(e(v) == exponent_of(m, v));
        }
    }
}

/// The sum of the coefficients of the terms of one monomial is the
/// coefficient that the list gives to that monomial.
pub proof fn lemma_group_value(
    terms: Seq<TermModel>,
    m: Seq<FactorModel>,
    e: spec_fn(Seq<char>) -> int,
)
    requires
        positive_denominators(terms),
        forall|i: int| 0 <= i < terms.len() ==> exponents_fit((#[trigger] terms[i]).factors),
        is_monomial(m),
        has_exponents(m, e),
        !(group_sum(terms, m) is Overflow),
    ensures
        match group_sum(terms, m) {
            GroupSum::Absent => coef(sem(terms), e) == 0real,
            GroupSum::Total(c) => c.denom > 0 && c.value() == coef(sem(terms), e),
            GroupSum::Overflow => false,
        },
    decreases terms.len(),
{
    if terms.len() > 0 {
        let front = terms.drop_last();
        let t = terms.last();
        assert(terms[terms.len() - 1].coef.denom > 0);
        assert(exponents_fit(terms[terms.len() - 1].factors));
        assert forall|i: int| 0 <= i < front.len() implies (#[trigger] front[i]).coef.denom > 0
            && exponents_fit(front[i].factors) by {
            assert(terms[i].coef.denom > 0);
            assert(exponents_fit(terms[i].factors));
        }
        lemma_group_value(front, m, e);
        lemma_normal_form_by_exponents(t.factors, m, e);
        assert(sem(terms).drop_last() =~= sem(front));
        assert(sem(terms).last() == sem_term(t));
        if normal_form(t.factors) == Some(m) {
            match group_sum(front, m) {
                GroupSum::Total(c) => {
                    lemma_add_value(c, t.coef);
                },
                _ => {},
            }
        }
    } else {
        assert(sem(terms).len() == 0);
    }
}

/// A member of the list keeps its monomial's sum from being absent.
pub proof fn lemma_member_counts(terms: Seq<TermModel>, k: int, m: Seq<FactorModel>)
    requires
        0 <= k < terms.len(),
        normal_form(terms[k].factors) == Some(m),
    ensures
        !(group_sum(terms, m) is Absent),
    decreases terms.len(),
{
    if k < terms.len() - 1 {
        lemma_member_counts(terms.drop_last(), k, m);
    }
}

/// Where the coefficients of a monomial add up to something, some term of
/// the list has that monomial.
pub proof fn lemma_group_member(terms: Seq<TermModel>, m: Seq<FactorModel>) -> (k: int)
    requires
        !(group_sum(terms, m) is Absent),
    ensures
        0 <= k < terms.len(),
        normal_form(terms[k].factors) == Some(m),
    decreases terms.len(),
{
    if normal_form(terms.last().factors) == Some(m) {
        terms.len() - 1
    } else {
        lemma_group_member(terms.drop_last(), m)
    }
}

/// Collecting like terms keeps the polynomial, and leaves it in a form in
/// which only the empty list stands for zero.
pub proof fn lemma_combined_coef(terms: Seq<TermModel>, e: spec_fn(Seq<char>) -> int)
    requires
        positive_denominators(terms),
        combined(terms) is Some,
    ensures
        positive_denominators(combined(terms).unwrap()),
        coef(sem(combined(terms).unwrap()), e) == coef(sem(terms), e),
{
    let r = combined(terms).unwrap();
    lemma_mono_lt_properties();
    assert(is_combined(r, terms) && combinable(terms));
    assert forall|i: int| 0 <= i < r.len() implies (#[trigger] r[i]).coef.denom > 0 by {
        lemma_group_value(terms, r[i].factors, exponents(r[i].factors));
    }
    let sr = sem(r);
    if exists|k: int| 0 <= k < terms.len() && has_exponents((#[trigger] terms[k]).factors, e) {
        let k = choose|k: int| 0 <= k < terms.len() && has_exponents((#[trigger] terms[k]).factors, e);
        let m = lemma_normal_form_exists(terms[k].factors);
        assert(has_exponents(m, e)) by {
            assert forall|v: Seq<char>| e(v) == #[trigger] exponent_of(m, v) by {
                assert(e(v) == exponent_of(terms[k].factors, v));
            }
        }
        lemma_normal_form_by_exponents(terms[k].factors, m, e);
        lemma_member_counts(terms, k, m);
        lemma_group_value(terms, m, e);
        let c = group_sum(terms, m)->Total_0;
        if c.numer != 0 {
            let i = choose|i: int| 0 <= i < r.len() && (#[trigger] r[i]).factors == m;
            assert(sr[i].factors == m);
            assert forall|j: int| 0 <= j < sr.len() && j != i implies !has_exponents(
                (#[trigger] sr[j]).factors,
                e,
            ) by {
                if has_exponents(sr[j].factors, e) {
                    assert(is_monomial(r[j].factors));
                    lemma_exponents_name_one_monomial(r[j].factors, m, e);
                    if j < i {
                        assert(mono_lt(r[j].factors, r[i].factors));
                    } else {
                        assert(mono_lt(r[i].factors, r[j].factors));
                    }
                }
            }
            lemma_coef_one(sr, i, e);
        } else {
            lemma_zero_value(c);
            assert forall|j: int| 0 <= j < sr.len() implies !has_exponents(
                (#[trigger] sr[j]).factors,
                e,
            ) by {
                if has_exponents(sr[j].factors, e) {
                    assert(is_monomial(r[j].factors));
                    lemma_exponents_name_one_monomial(r[j].factors, m, e);
                    assert(r[j].coef.numer != 0);
                }
            }
            lemma_coef_none(sr, e);
        }
    } else {
        let st = sem(terms);
        assert forall|i: int| 0 <= i < st.len() implies !has_exponents(
            (#[trigger] st[i]).factors,
            e,
        ) by {
            assert(!has_exponents(terms[i].factors, e));
        }
        lemma_coef_none(st, e);
        assert forall|j: int| 0 <= j < sr.len() implies !has_exponents(
            (#[trigger] sr[j]).factors,
            e,
        ) by {
            if has_exponents(sr[j].factors, e) {
                let m = r[j].factors;
                assert(group_sum(terms, r[j].factors) == GroupSum::Total(r[j].coef));
                let k = lemma_group_member(terms, m);
                assert(is_normal_form(m, terms[k].factors));
                assert forall|v: Seq<char>| e(v) == #[trigger] exponent_of(
                    terms[k].factors,
                    v,
                ) by {
                    assert(e(v) == exponent_of(m, v));
                }
                assert(has_exponents(terms[k].factors, e));
            }
        }
        lemma_coef_none(sr, e);
    }
}

/// A list with like terms collected that stands for zero is empty.
pub proof fn lemma_collected_zero_is_empty(r: Seq<TermModel>, terms: Seq<TermModel>)
    requires
        positive_denominators(terms),
        is_combined(r, terms),
        combinable(terms),
        zero_polynomial(sem(r)),
    ensures
        r.len() == 0,
{
    if r.len() > 0 {
        lemma_mono_lt_properties();
        let m = r[0].factors;
        let e = exponents(m);
        let sr = sem(r);
        assert(has_exponents(sr[0].factors, e));
        assert forall|j: int| 0 <= j < sr.len() && j != 0 implies !has_exponents(
            (#[trigger] sr[j]).factors,
            e,
        ) by {
            if has_exponents(sr[j].factors, e) {
                assert(is_monomial(r[j].factors));
                assert(is_monomial(r[0].factors));
                lemma_exponents_name_one_monomial(r[j].factors, m, e);
                assert(mono_lt(r[0].factors, r[j].factors));
            }
        }
        lemma_coef_one(sr, 0, e);
        lemma_group_value(terms, m, e);
        lemma_zero_value(r[0].coef);
        assert(coef(sr, e) == 0real);
    }
}

} // verus!
